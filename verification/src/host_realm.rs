//! The host realm: a realm kept in host memory. It holds objects, arrays,
//! host functions, namespaces and the instance cache, and runs no scripts.

use vstd::prelude::*;
use crate::adapters::{
    allocated, installed, path_view, JsRealmAdapter, JsValueAdapter, JsValueFactory,
};
use crate::errors::JsError;
use crate::facades::{JsF64, JsFacadeModel, JsPlainValue, JsValueFacade};
use crate::host_function::HostFunctionSlot;
use crate::host_value::{HostContext, HostValue};
use crate::model::{
    distinct_names, grows, has_property, is_position, lemma_grows_by_object,
    lemma_grows_by_property, lemma_grows_transitive, lemma_position_exists, lemma_position_is,
    lemma_property_assigned, position, property_names, property_value, with_element,
    with_property, without_property, JsObjectModel, JsProperties, JsRealmModel, JsValueModel,
};
use crate::proxies::{names_view, JsProxy, JsProxyHandle, JsProxyModel};
use crate::script::Script;

verus! {

struct HostProperty {
    name: String,
    value: HostValue,
}

struct HostObject {
    properties: Vec<HostProperty>,
    elements: Vec<HostValue>,
    prototype: Option<usize>,
    function: Option<usize>,
}

impl HostObject {
    spec fn properties_view(&self) -> JsProperties {
        Seq::new(
            self.properties@.len(),
            |i: int| (self.properties@[i].name@, self.properties@[i].value@),
        )
    }

    spec fn elements_view(&self) -> Seq<JsValueModel> {
        Seq::new(self.elements@.len(), |i: int| self.elements@[i]@)
    }

    spec fn view(&self) -> JsObjectModel {
        JsObjectModel {
            properties: self.properties_view(),
            elements: self.elements_view(),
            prototype: match self.prototype {
                Some(parent) => Some(parent as int),
                None => None,
            },
        }
    }

    /// What holds of the object `id` in a realm with `functions` functions.
    spec fn wf(&self, id: int, functions: int) -> bool {
        &&& distinct_names(self.properties_view())
        &&& self.elements@.len() <= u32::MAX
        &&& self.prototype matches Some(parent) ==> parent < id
        &&& self.function matches Some(k) ==> k < functions
    }

    fn new(prototype: Option<usize>, function: Option<usize>) -> (object: HostObject)
        ensures
            object.prototype == prototype,
            object.function == function,
            object.properties@.len() == 0,
            object.elements@.len() == 0,
            object@ == JsObjectModel::empty(
                match prototype {
                    Some(parent) => Some(parent as int),
                    None => None,
                },
            ),
    {
        let object = HostObject {
            properties: Vec::new(),
            elements: Vec::new(),
            prototype,
            function,
        };
        proof {
            assert(object.properties_view() =~= Seq::empty());
            assert(object.elements_view() =~= Seq::empty());
        }
        object
    }
}

/// A realm in host memory. The object with the identity 0 is its global
/// object.
pub struct HostRealm {
    objects: Vec<HostObject>,
    cache: Vec<Option<HostValue>>,
    functions: Vec<HostFunctionSlot>,
    proxies: Vec<JsProxy>,
}

impl View for HostRealm {
    type V = JsRealmModel;

    closed spec fn view(&self) -> JsRealmModel {
        JsRealmModel {
            objects: Map::new(
                |id: int| 0 <= id < self.objects@.len(),
                |id: int| self.objects@[id]@,
            ),
            global: 0,
            cache: Map::new(
                |id: i32| 0 <= id < self.cache@.len() && self.cache@[id as int] is Some,
                |id: i32| self.cache@[id as int]->Some_0@,
            ),
            issued: self.cache@.len(),
            proxies: Set::new(
                |proxy: JsProxyModel|
                    exists|i: int| 0 <= i < self.proxies@.len() && self.proxies@[i]@ == proxy,
            ),
        }
    }
}

impl HostRealm {
    /// The realm has its global object, and every object is in order.
    pub closed spec fn wf(&self) -> bool {
        &&& self.objects@.len() >= 1
        &&& self.cache@.len() <= i32::MAX
        &&& forall|id: int|
            0 <= id < self.objects@.len() ==> (#[trigger] self.objects@[id]).wf(
                id,
                self.functions@.len() as int,
            )
    }

    pub proof fn lemma_wf(&self)
        requires
            self.wf(),
        ensures
            self@.wf(),
            self@.global == 0,
    {
        assert forall|id: int| #[trigger] self@.objects.contains_key(id) implies distinct_names(
            self@.objects[id].properties,
        ) && self@.objects[id].elements.len() <= u32::MAX by {
            assert(self.objects@[id].wf(id, self.functions@.len() as int));
        }
    }

    /// A realm that holds nothing but an empty global object.
    pub fn new() -> (realm: HostRealm)
        ensures
            realm.wf(),
            realm@.objects == Map::<int, JsObjectModel>::empty().insert(
                0,
                JsObjectModel::empty(None),
            ),
            realm@.global == 0,
            realm@.cache == Map::<i32, JsValueModel>::empty(),
            realm@.issued == 0,
            realm@.proxies == Set::<JsProxyModel>::empty(),
    {
        let mut objects: Vec<HostObject> = Vec::new();
        objects.push(HostObject::new(None, None));
        let realm = HostRealm {
            objects,
            cache: Vec::new(),
            functions: Vec::new(),
            proxies: Vec::new(),
        };
        proof {
            assert(realm@.objects =~= Map::<int, JsObjectModel>::empty().insert(
                0,
                JsObjectModel::empty(None),
            ));
            assert(realm@.cache =~= Map::<i32, JsValueModel>::empty());
            assert(realm@.proxies =~= Set::<JsProxyModel>::empty());
            assert(distinct_names(realm.objects@[0].properties_view()));
        }
        realm
    }

    /// Whether the cache holds a value under `id`.
    pub fn js_cache_holds(&self, id: i32) -> (b: bool)
        ensures
            b == self@.cache.contains_key(id),
    {
        if id < 0 {
            return false;
        }
        let place = id as usize;
        place < self.cache.len() && self.cache[place].is_some()
    }

    /// Whether the cache has an identifier left to hand out.
    pub fn js_cache_has_room(&self) -> (b: bool)
        ensures
            b == (self@.issued < i32::MAX),
    {
        self.cache.len() < 0x7FFF_FFFF
    }

    /// The place of the object that `value` refers to.
    fn object_index(&self, value: &HostValue) -> (r: Option<usize>)
        requires
            self.wf(),
        ensures
            r is Some <==> self@.is_live(value@),
            r matches Some(id) ==> id < self.objects@.len() && value@.handle() == Some(id as int),
    {
        match value {
            HostValue::Object(id) | HostValue::Function(id) | HostValue::Array(id) => {
                if *id < self.objects.len() {
                    Some(*id)
                } else {
                    None
                }
            },
            _ => None,
        }
    }

    /// Where the property `name` of the object `id` stands.
    fn find_property(&self, id: usize, name: &String) -> (r: Option<usize>)
        requires
            id < self.objects@.len(),
        ensures
            r matches Some(k) ==> k < self.objects@[id as int].properties@.len() && position(
                self.objects@[id as int].properties_view(),
                name@,
            ) == k && has_property(self.objects@[id as int].properties_view(), name@),
            r is None ==> !has_property(self.objects@[id as int].properties_view(), name@),
    {
        let object = &self.objects[id];
        let ghost properties = object.properties_view();
        let mut k: usize = 0;
        while k < object.properties.len()
            invariant
                id < self.objects@.len(),
                *object == self.objects@[id as int],
                0 <= k <= object.properties@.len(),
                properties == object.properties_view(),
                properties.len() == object.properties@.len(),
                forall|j: int| 0 <= j < k ==> (#[trigger] properties[j]).0 != name@,
            decreases object.properties@.len() - k,
        {
            if object.properties[k].name == *name {
                proof {
                    assert(is_position(properties, name@, k as int));
                    lemma_position_is(properties, name@, k as int);
                }
                return Some(k);
            }
            k = k + 1;
        }
        proof {
            assert(is_position(properties, name@, k as int));
            lemma_position_is(properties, name@, k as int);
        }
        None
    }

    /// Replacing one object changes that object of the model and nothing
    /// else.
    proof fn lemma_object_replaced(before: &HostRealm, after: &HostRealm, id: int)
        requires
            0 <= id < before.objects@.len(),
            after.objects@ == before.objects@.update(id, after.objects@[id]),
            after.cache == before.cache,
            after.proxies == before.proxies,
        ensures
            after@ == before@.with_object(id, after.objects@[id]@),
    {
        assert(after@.objects =~= before@.objects.insert(id, after.objects@[id]@));
        assert(after@.cache =~= before@.cache);
        assert(after@.proxies =~= before@.proxies);
    }

    /// A new object is one more object of the model and nothing else.
    proof fn lemma_object_added(before: &HostRealm, after: &HostRealm)
        requires
            after.objects@ == before.objects@.push(after.objects@.last()),
            after.cache == before.cache,
            after.proxies == before.proxies,
        ensures
            after@ == before@.with_object(
                before.objects@.len() as int,
                after.objects@.last()@,
            ),
            !before@.objects.contains_key(before.objects@.len() as int),
    {
        assert(after@.objects =~= before@.objects.insert(
            before.objects@.len() as int,
            after.objects@.last()@,
        ));
        assert(after@.cache =~= before@.cache);
        assert(after@.proxies =~= before@.proxies);
    }

    /// Assigns the property `name` of the object `id`.
    fn set_own_property(&mut self, id: usize, name: String, value: HostValue)
        requires
            old(self).wf(),
            id < old(self).objects@.len(),
        ensures
            final(self).wf(),
            final(self).objects@.len() == old(self).objects@.len(),
            final(self).functions == old(self).functions,
            old(self).same_functions(final(self)),
            old(self).functions_kept(final(self)),
            forall|other: int|
                0 <= other < old(self).objects@.len() && other != id ==> final(self).objects@[other]
                    == old(self).objects@[other],
            final(self)@ == old(self)@.with_object(
                id as int,
                JsObjectModel {
                    properties: with_property(
                        old(self)@.objects[id as int].properties,
                        name@,
                        value@,
                    ),
                    ..old(self)@.objects[id as int]
                },
            ),
    {
        let ghost before = *self;
        let ghost properties = self.objects@[id as int].properties_view();
        let ghost pair = (name@, value@);
        proof {
            lemma_position_exists(properties, name@);
            assert(self.objects@[id as int].wf(id as int, self.functions@.len() as int));
        }
        match self.find_property(id, &name) {
            Some(k) => {
                self.objects[id].properties[k].value = value;
                proof {
                    assert(self.objects@[id as int].properties_view() =~= properties.update(
                        k as int,
                        pair,
                    ));
                }
            },
            None => {
                self.objects[id].properties.push(HostProperty { name, value });
                proof {
                    assert(self.objects@[id as int].properties_view() =~= properties.push(pair));
                }
            },
        }
        proof {
            let updated = self.objects@[id as int].properties_view();
            assert(updated == with_property(properties, pair.0, pair.1));
            assert(self.objects@[id as int].elements_view() =~= before.objects@[id as int].elements_view());
            assert(distinct_names(updated));
            assert forall|other: int| 0 <= other < self.objects@.len() implies (
            #[trigger] self.objects@[other]).wf(other, self.functions@.len() as int) by {
                if other != id {
                    assert(self.objects@[other] == before.objects@[other]);
                    assert(before.objects@[other].wf(other, before.functions@.len() as int));
                }
            }
            Self::lemma_object_replaced(&before, self, id as int);
            assert(self.objects@[id as int].function == before.objects@[id as int].function);
            before.lemma_same_functions(self);
        }
    }

    /// Removes the property `name` of the object `id`, where it has one.
    fn delete_own_property(&mut self, id: usize, name: &String)
        requires
            old(self).wf(),
            id < old(self).objects@.len(),
        ensures
            final(self).wf(),
            final(self).objects@.len() == old(self).objects@.len(),
            final(self).functions == old(self).functions,
            old(self).same_functions(final(self)),
            old(self).functions_kept(final(self)),
            forall|other: int|
                0 <= other < old(self).objects@.len() && other != id ==> final(self).objects@[other]
                    == old(self).objects@[other],
            final(self)@ == old(self)@.with_object(
                id as int,
                JsObjectModel {
                    properties: without_property(old(self)@.objects[id as int].properties, name@),
                    ..old(self)@.objects[id as int]
                },
            ),
    {
        let ghost before = *self;
        let ghost properties = self.objects@[id as int].properties_view();
        proof {
            assert(self.objects@[id as int].wf(id as int, self.functions@.len() as int));
        }
        match self.find_property(id, name) {
            Some(k) => {
                self.objects[id].properties.remove(k);
                proof {
                    assert(self.objects@[id as int].properties_view() =~= properties.remove(
                        k as int,
                    ));
                }
            },
            None => {
                proof {
                    assert(self.objects@ =~= before.objects@.update(
                        id as int,
                        self.objects@[id as int],
                    ));
                }
            },
        }
        proof {
            let updated = self.objects@[id as int].properties_view();
            assert(updated == without_property(properties, name@));
            assert(self.objects@[id as int].elements_view() =~= before.objects@[id as int].elements_view());
            assert(distinct_names(updated));
            assert forall|other: int| 0 <= other < self.objects@.len() implies (
            #[trigger] self.objects@[other]).wf(other, self.functions@.len() as int) by {
                if other != id {
                    assert(self.objects@[other] == before.objects@[other]);
                    assert(before.objects@[other].wf(other, before.functions@.len() as int));
                }
            }
            Self::lemma_object_replaced(&before, self, id as int);
            assert(self.objects@[id as int].function == before.objects@[id as int].function);
            before.lemma_same_functions(self);
        }
    }

    /// Makes an object without properties and elements.
    fn allocate(&mut self, prototype: Option<usize>, function: Option<usize>) -> (id: usize)
        requires
            old(self).wf(),
            prototype matches Some(parent) ==> parent < old(self).objects@.len(),
            function matches Some(k) ==> k < old(self).functions@.len(),
        ensures
            final(self).wf(),
            id == old(self).objects@.len(),
            final(self).objects@.len() == old(self).objects@.len() + 1,
            final(self).functions == old(self).functions,
            old(self).same_functions(final(self)),
            old(self).functions_kept(final(self)),
            final(self).objects@[id as int].prototype == prototype,
            final(self).objects@[id as int].function == function,
            forall|other: int|
                0 <= other < id ==> final(self).objects@[other] == old(self).objects@[other],
            final(self)@ == old(self)@.with_object(
                id as int,
                JsObjectModel::empty(
                    match prototype {
                        Some(parent) => Some(parent as int),
                        None => None,
                    },
                ),
            ),
            allocated(old(self)@, final(self)@, id as int),
    {
        let ghost before = *self;
        let id = self.objects.len();
        self.objects.push(HostObject::new(prototype, function));
        proof {
            assert(self.objects@.last() == self.objects@[id as int]);
            assert(distinct_names(self.objects@[id as int].properties_view()));
            assert forall|other: int| 0 <= other < self.objects@.len() implies (
            #[trigger] self.objects@[other]).wf(other, self.functions@.len() as int) by {
                if other != id {
                    assert(self.objects@[other] == before.objects@[other]);
                    assert(before.objects@[other].wf(other, before.functions@.len() as int));
                }
            }
            Self::lemma_object_added(&before, self);
            before.lemma_same_functions(self);
        }
        id
    }

    /// What the property `name` of the object `id` holds, where it has one.
    fn own_property(&self, id: usize, name: &String) -> (r: Option<&HostValue>)
        requires
            self.wf(),
            id < self.objects@.len(),
        ensures
            r matches Some(value) ==> has_property(self@.objects[id as int].properties, name@)
                && value@ == property_value(self@.objects[id as int].properties, name@),
            r is None ==> !has_property(self@.objects[id as int].properties, name@),
    {
        match self.find_property(id, name) {
            Some(k) => Some(&self.objects[id].properties[k].value),
            None => None,
        }
    }

    /// Walks from the global object along `namespace` as far as the names
    /// lead to objects. Returns how many names were walked, the object
    /// reached, and whether the walk ended at a property that holds no
    /// object (and not for want of a property).
    fn walk(&self, namespace: &[&str]) -> (r: (usize, HostValue, bool))
        requires
            self.wf(),
        ensures
            r.0 <= namespace@.len(),
            self@.resolve(self@.global_value(), path_view(namespace).take(r.0 as int)) == Some(
                r.1@,
            ),
            self@.is_live(r.1@),
            r.0 < namespace@.len() ==> self@.step(r.1@, path_view(namespace)[r.0 as int]) is None
                && r.2 == has_property(self@.properties(r.1@), path_view(namespace)[r.0 as int]),
            r.0 < namespace@.len() ==> self@.namespace(path_view(namespace)) is None,
            r.0 == namespace@.len() ==> self@.namespace(path_view(namespace)) == Some(r.1@),
            self@.held_up(path_view(namespace)) <==> r.0 < namespace@.len() && r.2,
            r.0 < namespace@.len() ==> self@.stops_at(path_view(namespace), r.0 as int),
            r.0 < namespace@.len() && r.2 ==> self@.held_up_at(path_view(namespace), r.0 as int),
    {
        let ghost path = path_view(namespace);
        let ghost global = self@.global_value();
        let mut current: usize = 0;
        let mut reached = HostValue::Object(0);
        let mut i: usize = 0;
        let mut blocked = false;
        let mut open = true;
        proof {
            assert(path.take(0) =~= Seq::<Seq<char>>::empty());
        }
        while open && i < namespace.len()
            invariant
                self.wf(),
                path == path_view(namespace),
                global == self@.global_value(),
                i <= namespace@.len(),
                current < self.objects@.len(),
                reached@.handle() == Some(current as int),
                self@.is_live(reached@),
                self@.resolve(global, path.take(i as int)) == Some(reached@),
                !open ==> i < namespace@.len() && self@.step(reached@, path[i as int]) is None
                    && blocked == has_property(self@.properties(reached@), path[i as int]),
            decreases (if open { 1int } else { 0int }), namespace@.len() - i,
        {
            let key = namespace[i].to_owned();
            assert(key@ == path[i as int]);
            let next = match self.own_property(current, &key) {
                Some(value) => match self.object_index(value) {
                    Some(id) => Some((id, value.clone())),
                    None => {
                        blocked = true;
                        None
                    },
                },
                None => {
                    blocked = false;
                    None
                },
            };
            match next {
                Some((id, value)) => {
                    proof {
                        assert(self@.step(reached@, path[i as int]) == Some(value@));
                        self@.lemma_resolve_concat(
                            global,
                            path.take(i as int),
                            seq![path[i as int]],
                        );
                        self@.lemma_resolve_one(reached@, path[i as int]);
                        assert(path.take(i as int) + seq![path[i as int]] =~= path.take(
                            i as int + 1,
                        ));
                    }
                    current = id;
                    reached = value;
                    i = i + 1;
                },
                None => {
                    open = false;
                },
            }
        }
        proof {
            if i < namespace@.len() {
                let rest = path.skip(i as int);
                assert(path.take(i as int) + rest =~= path);
                self@.lemma_resolve_concat(global, path.take(i as int), rest);
                assert(rest[0] == path[i as int]);
            } else {
                assert(path.take(i as int) =~= path);
            }
            if i < namespace@.len() && blocked {
                assert(self@.held_up_at(path, i as int));
            }
            assert forall|k: int| self@.held_up_at(path, k) implies k == i by {
                self@.lemma_stops_once(path, i as int, k);
            }
        }
        (i, reached, blocked)
    }

    /// Takes a host function into the realm as a new function object, which
    /// does what the function in `slot` does.
    fn add_function(&mut self, slot: HostFunctionSlot) -> (id: usize)
        requires
            old(self).wf(),
        ensures
            final(self).wf(),
            id == old(self).objects@.len(),
            final(self).objects@.len() == old(self).objects@.len() + 1,
            final(self).objects@[id as int].function is Some,
            old(self).same_functions(final(self)),
            old(self).functions_kept(final(self)),
            forall|other: int|
                0 <= other < id ==> final(self).objects@[other] == old(self).objects@[other],
            final(self)@ == old(self)@.with_object(id as int, JsObjectModel::empty(None)),
            allocated(old(self)@, final(self)@, id as int),
            final(self).is_function(JsValueModel::Function(id as int)),
            forall|
                context: &HostContext,
                this: &HostValue,
                args: &[HostValue],
                outcome: Result<HostValue, JsError>,
            |
                #[trigger] final(self).function_yields(
                    JsValueModel::Function(id as int),
                    context,
                    this,
                    args,
                    outcome,
                ) == slot.function.yields(context, this, args, outcome),
    {
        let ghost before = *self;
        let k = self.functions.len();
        self.functions.push(slot);
        proof {
            assert forall|other: int| 0 <= other < self.objects@.len() implies (
            #[trigger] self.objects@[other]).wf(other, self.functions@.len() as int) by {
                assert(before.objects@[other].wf(other, before.functions@.len() as int));
            }
            assert(self@.objects =~= before@.objects);
            assert(self@.cache =~= before@.cache);
            assert(self@.proxies =~= before@.proxies);
        }
        let ghost pushed = *self;
        let id = self.allocate(None, Some(k));
        proof {
            assert(before.same_functions(&pushed));
            before.lemma_same_functions(self);
        }
        id
    }

    /// Makes `slot` the function `name` of the namespace at `namespace`.
    /// Namespaces that are missing are made. Where a name on the way holds
    /// what is no object, nothing is changed.
    fn install(&mut self, namespace: &[&str], name: &str, slot: HostFunctionSlot) -> (r: Result<
        (),
        JsError,
    >)
        requires
            old(self).wf(),
        ensures
            final(self).wf(),
            old(self)@.host_side_kept(final(self)@),
            r is Ok ==> installed(old(self)@, final(self)@, path_view(namespace), name@),
            r is Err ==> final(self)@ == old(self)@,
            r is Err <==> old(self)@.held_up(path_view(namespace)),
            r matches Err(e) ==> e is PropertyNotFound && exists|i: int|
                #[trigger] old(self)@.held_up_at(path_view(namespace), i) && e->PropertyNotFound_0@
                    == path_view(namespace)[i],
            old(self).functions_kept(final(self)),
            r is Ok ==> final(self).is_function(
                installed_function(old(self)@, final(self)@, path_view(namespace), name@),
            ) && forall|
                context: &HostContext,
                this: &HostValue,
                args: &[HostValue],
                outcome: Result<HostValue, JsError>,
            |
                #[trigger] final(self).function_yields(
                    installed_function(old(self)@, final(self)@, path_view(namespace), name@),
                    context,
                    this,
                    args,
                    outcome,
                ) == slot.function.yields(context, this, args, outcome),
    {
        let ghost before = *self;
        let ghost path = path_view(namespace);
        let ghost global = self@.global_value();
        let (walked, reached, blocked) = self.walk(namespace);
        let length = namespace.len();
        if walked < length && blocked {
            return Err(JsError::PropertyNotFound(namespace[walked].to_owned()));
        }
        let target = match self.object_index(&reached) {
            Some(target) => target,
            None => 0,
        };
        let function = self.add_function(slot);
        let ghost grown = *self;
        if walked == length {
            self.set_own_property(target, name.to_owned(), HostValue::Function(function));
            proof {
                lemma_property_assigned(
                    grown@.properties(reached@),
                    name@,
                    JsValueModel::Function(function as int),
                );
                assert(before.same_functions(self));
                before.lemma_same_functions(self);
                assert(before@.namespace(path) == Some(reached@));
                assert(self@ == before@.with_function(
                    function as int,
                    self@.objects[function as int],
                    reached@,
                    name@,
                ));
                assert(self@.objects.contains_key(function as int));
            }
            return Ok(());
        }
        // The namespaces from `walked` on are missing: they are made from the
        // last one up, and the first of them is hung into the object reached.
        let mut child = self.allocate(None, None);
        self.set_own_property(child, name.to_owned(), HostValue::Function(function));
        let ghost leaf = JsValueModel::Object(child as int);
        let mut j: usize = length - 1;
        proof {
            assert(path.subrange(length as int, length as int) =~= Seq::<Seq<char>>::empty());
            lemma_property_assigned(
                grown@.with_object(child as int, JsObjectModel::empty(None)).objects[child as int].properties,
                name@,
                JsValueModel::Function(function as int),
            );
            lemma_grows_by_object(before@, function as int, JsObjectModel::empty(None));
            lemma_grows_by_object(grown@, child as int, JsObjectModel::empty(None));
            let made = grown@.with_object(child as int, JsObjectModel::empty(None));
            lemma_position_exists(Seq::empty(), name@);
            lemma_grows_by_property(
                made,
                leaf,
                name@,
                JsValueModel::Function(function as int),
            );
            lemma_grows_transitive(before@, grown@, made);
            lemma_grows_transitive(before@, made, self@);
        }
        while j > walked
            invariant
                self.wf(),
                before.wf(),
                path == path_view(namespace),
                length == namespace@.len(),
                walked <= j < length,
                target < before.objects@.len(),
                before.objects@.len() <= child < self.objects@.len(),
                child == leaf.handle().unwrap() || self@.objects[child as int].properties.len() == 1,
                self@.is_live(leaf),
                before@.host_side_kept(self@),
                grows(before@, self@),
                forall|other: int|
                    0 <= other < before.objects@.len() ==> self.objects@[other]
                        == before.objects@[other],
                self@.resolve(
                    JsValueModel::Object(child as int),
                    path.subrange(j as int + 1, length as int),
                ) == Some(leaf),
                has_property(self@.properties(leaf), name@),
                property_value(self@.properties(leaf), name@) == JsValueModel::Function(
                    function as int,
                ),
                grown.wf(),
                before.same_functions(&grown),
                grown.same_functions(self),
                function < grown.objects@.len(),
            decreases j,
        {
            let ghost middle = *self;
            let parent = self.allocate(None, None);
            let ghost made = *self;
            self.set_own_property(parent, namespace[j].to_owned(), HostValue::Object(child));
            proof {
                let link = JsValueModel::Object(child as int);
                let above = JsValueModel::Object(parent as int);
                lemma_position_exists(Seq::empty(), path[j as int]);
                lemma_grows_by_object(middle@, parent as int, JsObjectModel::empty(None));
                lemma_grows_by_property(made@, above, path[j as int], link);
                lemma_grows_transitive(middle@, made@, self@);
                lemma_grows_transitive(before@, middle@, self@);
                middle@.lemma_resolve_grows(
                    self@,
                    link,
                    path.subrange(j as int + 1, length as int),
                );
                lemma_property_assigned(made@.properties(above), path[j as int], link);
                assert(self@.step(above, path[j as int]) == Some(link));
                self@.lemma_resolve_one(above, path[j as int]);
                self@.lemma_resolve_concat(
                    above,
                    seq![path[j as int]],
                    path.subrange(j as int + 1, length as int),
                );
                assert(seq![path[j as int]] + path.subrange(j as int + 1, length as int)
                    =~= path.subrange(j as int, length as int));
                assert(middle@.objects.contains_key(leaf.handle().unwrap()));
                assert(has_property(middle@.objects[leaf.handle().unwrap()].properties, name@));
            }
            child = parent;
            j = j - 1;
        }
        let ghost middle = *self;
        self.set_own_property(target, namespace[walked].to_owned(), HostValue::Object(child));
        proof {
            let link = JsValueModel::Object(child as int);
            assert(!has_property(before@.properties(reached@), path[walked as int]));
            assert(middle.objects@[target as int] == before.objects@[target as int]);
            assert(middle@.properties(reached@) == before@.properties(reached@));
            lemma_grows_by_property(middle@, reached@, path[walked as int], link);
            lemma_grows_transitive(before@, middle@, self@);
            before@.lemma_resolve_grows(self@, global, path.take(walked as int));
            middle@.lemma_resolve_grows(
                self@,
                link,
                path.subrange(walked as int + 1, length as int),
            );
            lemma_property_assigned(middle@.properties(reached@), path[walked as int], link);
            assert(self@.step(reached@, path[walked as int]) == Some(link));
            self@.lemma_resolve_one(reached@, path[walked as int]);
            self@.lemma_resolve_concat(
                reached@,
                seq![path[walked as int]],
                path.subrange(walked as int + 1, length as int),
            );
            assert(seq![path[walked as int]] + path.subrange(walked as int + 1, length as int)
                =~= path.skip(walked as int));
            self@.lemma_resolve_concat(global, path.take(walked as int), path.skip(walked as int));
            assert(path.take(walked as int) + path.skip(walked as int) =~= path);
            assert(self@.namespace(path) == Some(leaf));
            assert(middle@.objects.contains_key(leaf.handle().unwrap()));
            assert(has_property(middle@.objects[leaf.handle().unwrap()].properties, name@));
            assert(before.same_functions(self));
            before.lemma_same_functions(self);
            grown.lemma_same_functions(self);
            assert(before@.namespace(path) is None);
        }
        Ok(())
    }

    /// The place of the array that `value` refers to.
    fn array_index(&self, value: &HostValue) -> (r: Option<usize>)
        requires
            self.wf(),
        ensures
            r is Some <==> self@.is_array(value@),
            r matches Some(id) ==> id < self.objects@.len() && value@.handle() == Some(id as int),
    {
        match value {
            HostValue::Array(id) => {
                if *id < self.objects.len() {
                    Some(*id)
                } else {
                    None
                }
            },
            _ => None,
        }
    }

    /// Assigns the element `index` of the object `id`.
    fn set_own_element(&mut self, id: usize, index: u32, value: HostValue)
        requires
            old(self).wf(),
            id < old(self).objects@.len(),
            index < u32::MAX,
        ensures
            final(self).wf(),
            final(self).objects@.len() == old(self).objects@.len(),
            final(self).functions == old(self).functions,
            old(self).same_functions(final(self)),
            old(self).functions_kept(final(self)),
            final(self)@ == old(self)@.with_object(
                id as int,
                JsObjectModel {
                    elements: with_element(
                        old(self)@.objects[id as int].elements,
                        index as int,
                        value@,
                    ),
                    ..old(self)@.objects[id as int]
                },
            ),
    {
        let ghost before = *self;
        let ghost elements = self.objects@[id as int].elements_view();
        proof {
            assert(self.objects@[id as int].wf(id as int, self.functions@.len() as int));
        }
        let place = index as usize;
        if place < self.objects[id].elements.len() {
            self.objects[id].elements[place] = value;
        } else {
            while self.objects[id].elements.len() < place
                invariant
                    id < self.objects@.len(),
                    self.objects@.len() == before.objects@.len(),
                    self.functions == before.functions,
                    self.cache == before.cache,
                    self.proxies == before.proxies,
                    elements.len() <= self.objects@[id as int].elements@.len() <= place,
                    place == index,
                    self.objects@[id as int].properties == before.objects@[id as int].properties,
                    self.objects@[id as int].prototype == before.objects@[id as int].prototype,
                    self.objects@[id as int].function == before.objects@[id as int].function,
                    forall|other: int|
                        0 <= other < self.objects@.len() && other != id ==> self.objects@[other]
                            == before.objects@[other],
                    forall|i: int|
                        0 <= i < self.objects@[id as int].elements@.len() ==> (
                        #[trigger] self.objects@[id as int].elements@[i])@ == (if i
                            < elements.len() {
                            elements[i]
                        } else {
                            JsValueModel::undefined()
                        }),
                decreases place - self.objects@[id as int].elements@.len(),
            {
                self.objects[id].elements.push(HostValue::Undefined);
            }
            self.objects[id].elements.push(value);
        }
        proof {
            assert(self.objects@[id as int].elements_view() =~= with_element(
                elements,
                index as int,
                value@,
            ));
            assert(self.objects@[id as int].properties_view()
                =~= before.objects@[id as int].properties_view());
            assert forall|other: int| 0 <= other < self.objects@.len() implies (
            #[trigger] self.objects@[other]).wf(other, self.functions@.len() as int) by {
                assert(before.objects@[other].wf(other, before.functions@.len() as int));
            }
            assert(self.objects@ =~= before.objects@.update(id as int, self.objects@[id as int]));
            Self::lemma_object_replaced(&before, self, id as int);
            assert(self.objects@[id as int].function == before.objects@[id as int].function);
            before.lemma_same_functions(self);
        }
    }

    /// The function that `value` refers to, by its place in the table of
    /// functions.
    fn function_index(&self, value: &HostValue) -> (r: Option<usize>)
        requires
            self.wf(),
        ensures
            r matches Some(k) ==> k < self.functions@.len() && value@ is Function
                && self@.is_live(value@) && self.function_place(value@) == k,
            r is Some <==> self.is_function(value@),
    {
        match value {
            HostValue::Function(id) => {
                if *id < self.objects.len() {
                    proof {
                        assert(self.objects@[*id as int].wf(
                            *id as int,
                            self.functions@.len() as int,
                        ));
                    }
                    self.objects[*id].function
                } else {
                    None
                }
            },
            _ => None,
        }
    }

    /// The table of functions of `self` stands in `after` as it stands
    /// here, and so does the place that each object has in it.
    spec fn same_functions(&self, after: &HostRealm) -> bool {
        &&& self.functions@.len() <= after.functions@.len()
        &&& forall|k: int|
            0 <= k < self.functions@.len() ==> #[trigger] after.functions@[k]
                == self.functions@[k]
        &&& self.objects@.len() <= after.objects@.len()
        &&& forall|id: int|
            0 <= id < self.objects@.len() ==> (#[trigger] after.objects@[id]).function
                == self.objects@[id].function
    }

    /// Every function of `self` is a function of `after`, and does there
    /// what it does here.
    pub open spec fn functions_kept(&self, after: &HostRealm) -> bool {
        forall|function: JsValueModel| #[trigger]
            self.is_function(function) ==> after.is_function(function) && forall|
                context: &HostContext,
                this: &HostValue,
                args: &[HostValue],
                outcome: Result<HostValue, JsError>,
            | #[trigger]
                after.function_yields(function, context, this, args, outcome) == self.function_yields(
                    function,
                    context,
                    this,
                    args,
                    outcome,
                )
    }

    proof fn lemma_same_functions(&self, after: &HostRealm)
        requires
            self.wf(),
            self.same_functions(after),
        ensures
            self.functions_kept(after),
    {
        assert forall|function: JsValueModel| #[trigger]
            self.is_function(function) implies after.is_function(function) && forall|
                context: &HostContext,
                this: &HostValue,
                args: &[HostValue],
                outcome: Result<HostValue, JsError>,
            | #[trigger]
            after.function_yields(function, context, this, args, outcome) == self.function_yields(
                function,
                context,
                this,
                args,
                outcome,
            ) by {
            let id = function.handle().unwrap();
            assert(after.objects@[id].function == self.objects@[id].function);
            assert(self.objects@[id].wf(id, self.functions@.len() as int));
            let k = self.objects@[id].function->Some_0 as int;
            assert(after.functions@[k] == self.functions@[k]);
        }
    }

    /// `value` is a function that this realm made.
    pub closed spec fn is_function(&self, value: JsValueModel) -> bool {
        value matches JsValueModel::Function(id) && 0 <= id < self.objects@.len()
            && self.objects@[id].function is Some
    }

    /// A function of the realm is a function object of the realm.
    pub proof fn lemma_function_is_live(&self, value: JsValueModel)
        requires
            self.is_function(value),
        ensures
            value is Function,
            self@.is_live(value),
    {
    }

    /// Where the function that `value` refers to stands in the table of
    /// functions.
    spec fn function_place(&self, value: JsValueModel) -> int {
        self.objects@[value.handle().unwrap()].function->Some_0 as int
    }

    /// The function that `function` refers to, called with `this` and
    /// `args`, may return `outcome`.
    pub closed spec fn function_yields(
        &self,
        function: JsValueModel,
        context: &HostContext,
        this: &HostValue,
        args: &[HostValue],
        outcome: Result<HostValue, JsError>,
    ) -> bool {
        self.is_function(function) && self.functions@[self.function_place(
            function,
        )].function.yields(context, this, args, outcome)
    }

    /// Whether `names` and `path` are the same names.
    fn same_names(names: &Vec<String>, path: &[&str]) -> (b: bool)
        ensures
            b == (names_view(names@) == path_view(path)),
    {
        if names.len() != path.len() {
            proof {
                assert(names_view(names@).len() != path_view(path).len());
            }
            return false;
        }
        let mut i: usize = 0;
        while i < names.len()
            invariant
                names@.len() == path@.len(),
                0 <= i <= names@.len(),
                forall|j: int| 0 <= j < i ==> names@[j]@ == path@[j]@,
            decreases names@.len() - i,
        {
            let segment = path[i].to_owned();
            if !(names[i] == segment) {
                proof {
                    assert(names_view(names@)[i as int] != path_view(path)[i as int]);
                }
                return false;
            }
            i = i + 1;
        }
        proof {
            assert(names_view(names@) =~= path_view(path));
        }
        true
    }

    /// Whether a host class was installed under this namespace and name.
    fn has_proxy(&self, namespace: &[&str], class_name: &str) -> (b: bool)
        ensures
            b == self@.proxies.contains((path_view(namespace), class_name@)),
    {
        let name = class_name.to_owned();
        let mut i: usize = 0;
        while i < self.proxies.len()
            invariant
                0 <= i <= self.proxies@.len(),
                name@ == class_name@,
                forall|j: int|
                    0 <= j < i ==> (#[trigger] self.proxies@[j])@ != (
                        path_view(namespace),
                        class_name@,
                    ),
            decreases self.proxies@.len() - i,
        {
            if self.proxies[i].class_name == name && Self::same_names(
                &self.proxies[i].namespace,
                namespace,
            ) {
                proof {
                    assert(self.proxies@[i as int]@ == (path_view(namespace), class_name@));
                }
                return true;
            }
            i = i + 1;
        }
        false
    }
}

impl HostRealm {
    /// Whether `value` refers to the object made last.
    fn is_newest(&self, value: &HostValue) -> (b: bool)
        requires
            self.wf(),
        ensures
            b ==> value@.handle() == Some(self.objects@.len() - 1),
            !b && self@.is_live(value@) ==> value@.handle().unwrap() < self.objects@.len() - 1,
    {
        match self.object_index(value) {
            Some(id) => self.objects.len() - id == 1,
            None => false,
        }
    }
}

/// What stands under `name` in the namespace at `path` after a function was
/// installed there.
pub open spec fn installed_function(
    before: JsRealmModel,
    after: JsRealmModel,
    path: Seq<Seq<char>>,
    name: Seq<char>,
) -> JsValueModel {
    match before.namespace(path) {
        Some(target) => property_value(after.properties(target), name),
        None => property_value(after.properties(after.namespace(path).unwrap()), name),
    }
}

/// How the outcome of a constructor comes back from `new`: an object that the
/// constructor returns, and that was there before, is the instance; else the
/// new object `made` is. Where the constructor fails, the failure comes back
/// as an `InvocationError` that carries the thrown value.
pub open spec fn constructed(
    before: JsRealmModel,
    made: HostValue,
    outcome: Result<HostValue, JsError>,
    r: Result<HostValue, JsError>,
) -> bool {
    match outcome {
        Ok(value) => r == Ok::<HostValue, JsError>(
            if before.is_live(value@) {
                value
            } else {
                made
            },
        ),
        Err(e) => r is Err && r->Err_0 is InvocationError && r->Err_0->InvocationError_0@
            == e.thrown(),
    }
}

/// What a function is called on where the caller names nothing: `undefined`.
/// Every function is handed the one context that the host realm has.
pub open spec fn this_or_undefined(this_obj: Option<&HostValue>) -> HostValue {
    match this_obj {
        Some(this) => *this,
        None => HostValue::Undefined,
    }
}

/// How the outcome of a host function comes back from a call: what the
/// function returns is returned, and where it fails, the failure comes back
/// as an `InvocationError` that carries the thrown value.
pub open spec fn answered(
    outcome: Result<HostValue, JsError>,
    r: Result<HostValue, JsError>,
) -> bool {
    match outcome {
        Ok(value) => r == Ok::<HostValue, JsError>(value),
        Err(e) => r is Err && r->Err_0 is InvocationError && r->Err_0->InvocationError_0@
            == e.thrown(),
    }
}

impl JsValueFactory for HostRealm {
    type JsValueAdapterType = HostValue;

    fn js_null_create(&self) -> (r: Result<HostValue, JsError>)
        ensures
            r is Ok,
    {
        Ok(HostValue::Null)
    }

    fn js_undefined_create(&self) -> (r: Result<HostValue, JsError>)
        ensures
            r is Ok,
    {
        Ok(HostValue::Undefined)
    }

    fn js_i32_create(&self, val: i32) -> (r: Result<HostValue, JsError>)
        ensures
            r is Ok,
    {
        Ok(HostValue::I32(val))
    }

    fn js_string_create(&self, val: &str) -> (r: Result<HostValue, JsError>)
        ensures
            r is Ok,
    {
        Ok(HostValue::String(val.to_owned()))
    }

    fn js_boolean_create(&self, val: bool) -> (r: Result<HostValue, JsError>)
        ensures
            r is Ok,
    {
        Ok(HostValue::Boolean(val))
    }

    fn js_f64_create(&self, val: JsF64) -> (r: Result<HostValue, JsError>)
        ensures
            r is Ok,
    {
        Ok(HostValue::F64(val))
    }
}

impl JsRealmAdapter for HostRealm {
    type JsContextType = HostContext;

    type JsPromiseAdapterType = crate::host_promise::HostPromise;

    open spec fn model(&self) -> JsRealmModel {
        self@
    }

    open spec fn inv(&self) -> bool {
        self.wf()
    }

    proof fn inv_is_wf(&self) {
        self.lemma_wf();
    }

    /// A call changes nothing in the host realm. A function of the realm
    /// answers with the outcome of its closure; what is no function of the
    /// realm cannot be called.
    open spec fn invoked(
        &self,
        this_obj: Option<&HostValue>,
        function_obj: &HostValue,
        args: &[HostValue],
        after: Self,
        r: Result<HostValue, JsError>,
    ) -> bool {
        &&& after == *self
        &&& if self.is_function(function_obj@) {
            exists|outcome: Result<HostValue, JsError>| #[trigger]
                self.function_yields(
                    function_obj@,
                    &HostContext {  },
                    &this_or_undefined(this_obj),
                    args,
                    outcome,
                ) && answered(outcome, r)
        } else {
            r is Err && r->Err_0 is InvocationError && r->Err_0->InvocationError_0@
                == JsFacadeModel::Plain(JsPlainValue::String("not a function"@))
        }
    }

    /// The host realm runs no scripts: every script fails, under its path.
    fn js_eval(&mut self, script: Script) -> (r: Result<HostValue, JsError>)
        ensures
            old(self).functions_kept(final(self)),
            r matches Err(JsError::ScriptError(text)) && text@ == script.path@,
            final(self)@ == old(self)@,
    {
        Err(JsError::ScriptError(script.path))
    }

    /// The host realm runs no scripts: every module fails, under its path.
    fn js_eval_module(&mut self, script: Script) -> (r: Result<HostValue, JsError>)
        ensures
            old(self).functions_kept(final(self)),
            r matches Err(JsError::ScriptError(text)) && text@ == script.path@,
            final(self)@ == old(self)@,
    {
        Err(JsError::ScriptError(script.path))
    }

    fn js_proxy_install(&mut self, proxy: JsProxy)
        ensures
            old(self).functions_kept(final(self)),
    {
        let ghost before = *self;
        let ghost installed = proxy@;
        self.proxies.push(proxy);
        proof {
            assert forall|other: int| 0 <= other < self.objects@.len() implies (
            #[trigger] self.objects@[other]).wf(other, self.functions@.len() as int) by {
                assert(before.objects@[other].wf(other, before.functions@.len() as int));
            }
            assert(self@.objects =~= before@.objects);
            assert(self@.cache =~= before@.cache);
            assert forall|p: JsProxyModel| self@.proxies.contains(p) implies before@.proxies.insert(
                installed,
            ).contains(p) by {
                let i = choose|i: int| 0 <= i < self.proxies@.len() && self.proxies@[i]@ == p;
                if i < before.proxies@.len() {
                    assert(before.proxies@[i]@ == p);
                }
            }
            assert forall|p: JsProxyModel| before@.proxies.insert(installed).contains(
                p,
            ) implies self@.proxies.contains(p) by {
                if p == installed {
                    assert(self.proxies@[before.proxies@.len() as int]@ == p);
                } else {
                    let i = choose|i: int|
                        0 <= i < before.proxies@.len() && before.proxies@[i]@ == p;
                    assert(self.proxies@[i]@ == p);
                }
            }
            assert(self@.proxies =~= before@.proxies.insert(installed));
            before.lemma_same_functions(self);
        }
    }

    /// An instance of a host class is a new object without properties.
    fn js_proxy_instantiate(
        &mut self,
        namespace: &[&str],
        class_name: &str,
        arguments: &[HostValue],
    ) -> (r: Result<HostValue, JsError>)
        ensures
            old(self).functions_kept(final(self)),
            r is Ok <==> old(self)@.proxies.contains((path_view(namespace), class_name@)),
            r is Ok ==> allocated(old(self)@, final(self)@, r->Ok_0@.handle().unwrap()),
            r matches Err(e) ==> e->PropertyNotFound_0@ == class_name@,
    {
        if self.has_proxy(namespace, class_name) {
            let id = self.allocate(None, None);
            Ok(HostValue::Object(id))
        } else {
            Err(JsError::PropertyNotFound(class_name.to_owned()))
        }
    }

    /// A host class as the host realm keeps it has no one to hear events.
    fn js_proxy_invoke_event(
        &mut self,
        proxy_handle: &JsProxyHandle,
        event_id: &str,
        event_obj: &HostValue,
    )
        ensures
            old(self).functions_kept(final(self)),
            final(self)@ == old(self)@,
    {
    }

    /// What stands under `name` afterwards is a function that does what
    /// `js_function` does.
    fn js_install_function<F>(
        &mut self,
        namespace: &[&str],
        name: &str,
        js_function: F,
        arg_count: u32,
    ) -> (r: Result<(), JsError>) where
        F: Fn(&HostContext, &HostValue, &[HostValue]) -> Result<HostValue, JsError> + 'static,

        ensures
            r is Err <==> old(self)@.held_up(path_view(namespace)),
            r matches Err(e) ==> e is PropertyNotFound && exists|i: int|
                #[trigger] old(self)@.held_up_at(path_view(namespace), i) && e->PropertyNotFound_0@
                    == path_view(namespace)[i],
            old(self).functions_kept(final(self)),
            r is Ok ==> final(self).is_function(
                installed_function(old(self)@, final(self)@, path_view(namespace), name@),
            ) && forall|
                context: &HostContext,
                this: &HostValue,
                args: &[HostValue],
                outcome: Result<HostValue, JsError>,
            |
                #[trigger] final(self).function_yields(
                    installed_function(old(self)@, final(self)@, path_view(namespace), name@),
                    context,
                    this,
                    args,
                    outcome,
                ) <==> call_ensures(js_function, (context, this, args), outcome),
    {
        self.install(namespace, name, HostFunctionSlot::new(js_function))
    }

    /// What stands under `name` afterwards is a function that does what
    /// `js_function` does.
    fn js_install_closure<F>(
        &mut self,
        namespace: &[&str],
        name: &str,
        js_function: F,
        arg_count: u32,
    ) -> (r: Result<(), JsError>) where
        F: Fn(&HostContext, &HostValue, &[HostValue]) -> Result<HostValue, JsError> + 'static,

        ensures
            r is Err <==> old(self)@.held_up(path_view(namespace)),
            r matches Err(e) ==> e is PropertyNotFound && exists|i: int|
                #[trigger] old(self)@.held_up_at(path_view(namespace), i) && e->PropertyNotFound_0@
                    == path_view(namespace)[i],
            old(self).functions_kept(final(self)),
            r is Ok ==> final(self).is_function(
                installed_function(old(self)@, final(self)@, path_view(namespace), name@),
            ) && forall|
                context: &HostContext,
                this: &HostValue,
                args: &[HostValue],
                outcome: Result<HostValue, JsError>,
            |
                #[trigger] final(self).function_yields(
                    installed_function(old(self)@, final(self)@, path_view(namespace), name@),
                    context,
                    this,
                    args,
                    outcome,
                ) <==> call_ensures(js_function, (context, this, args), outcome),
    {
        self.install(namespace, name, HostFunctionSlot::new(js_function))
    }

    /// Where the walk stops, the name at which it stops is reported.
    fn js_get_namespace(&self, namespace: &[&str]) -> (r: Result<HostValue, JsError>)
        ensures
            r is Ok <==> self@.namespace(path_view(namespace)) is Some,
            r matches Err(e) ==> exists|i: int|
                #[trigger] self@.stops_at(path_view(namespace), i) && e->PropertyNotFound_0@
                    == path_view(namespace)[i],
    {
        let (walked, reached, blocked) = self.walk(namespace);
        if walked == namespace.len() {
            Ok(reached)
        } else {
            Err(JsError::PropertyNotFound(namespace[walked].to_owned()))
        }
    }

    /// Calls a host function. What it returns is the result; where it
    /// fails, the failure comes back as the thrown value. What is no
    /// function of this realm cannot be called.
    fn js_function_invoke(
        &mut self,
        this_obj: Option<&HostValue>,
        function_obj: &HostValue,
        args: &[HostValue],
    ) -> (r: Result<HostValue, JsError>)
        ensures
            old(self).functions_kept(final(self)),
            final(self)@ == old(self)@,
            !old(self).is_function(function_obj@) ==> r is Err,
    {
        match self.function_index(function_obj) {
            Some(k) => {
                let undefined = HostValue::Undefined;
                let this = match this_obj {
                    Some(this) => this,
                    None => &undefined,
                };
                let context = HostContext {  };
                let outcome = self.functions[k].function.call(&context, this, args);
                proof {
                    assert(*this == this_or_undefined(this_obj));
                    assert(self.function_yields(
                        function_obj@,
                        &HostContext {  },
                        &this_or_undefined(this_obj),
                        args,
                        outcome,
                    ));
                }
                match outcome {
                    Ok(value) => Ok(value),
                    Err(e) => Err(JsError::InvocationError(e.into_thrown())),
                }
            },
            None => Err(
                JsError::InvocationError(JsValueFacade::String("not a function".to_owned())),
            ),
        }
    }

    /// The function made does what the closure does.
    fn js_function_create<F>(&mut self, name: &str, js_function: F, arg_count: u32) -> (r: Result<
        HostValue,
        JsError,
    >) where F: Fn(&HostContext, &HostValue, &[HostValue]) -> Result<HostValue, JsError> + 'static
        ensures
            old(self).functions_kept(final(self)),
            r is Ok,
            final(self).is_function(r->Ok_0@),
            forall|
                context: &HostContext,
                this: &HostValue,
                args: &[HostValue],
                outcome: Result<HostValue, JsError>,
            |
                #[trigger] final(self).function_yields(r->Ok_0@, context, this, args, outcome)
                    <==> call_ensures(js_function, (context, this, args), outcome),
    {
        let id = self.add_function(HostFunctionSlot::new(js_function));
        Ok(HostValue::Function(id))
    }

    fn js_object_delete_property(&mut self, object: &HostValue, property_name: &str) -> (r: Result<
        (),
        JsError,
    >)
        ensures
            old(self).functions_kept(final(self)),
            r is Ok <==> old(self)@.is_live(object@),
            r matches Err(e) ==> e is PropertyNotFound && e->PropertyNotFound_0@
                == property_name@,
    {
        match self.object_index(object) {
            Some(id) => {
                let name = property_name.to_owned();
                self.delete_own_property(id, &name);
                Ok(())
            },
            None => Err(JsError::PropertyNotFound(property_name.to_owned())),
        }
    }

    fn js_object_set_property(
        &mut self,
        object: &HostValue,
        property_name: &str,
        property: &HostValue,
    ) -> (r: Result<(), JsError>)
        ensures
            old(self).functions_kept(final(self)),
            r is Ok <==> old(self)@.is_live(object@),
            r matches Err(e) ==> e is PropertyNotFound && e->PropertyNotFound_0@
                == property_name@,
    {
        match self.object_index(object) {
            Some(id) => {
                self.set_own_property(id, property_name.to_owned(), property.clone());
                Ok(())
            },
            None => Err(JsError::PropertyNotFound(property_name.to_owned())),
        }
    }

    /// Reading never fails here: a property that is not there, and any
    /// property of what is no object, reads as `undefined`.
    fn js_object_get_property(&self, object: &HostValue, property_name: &str) -> (r: Result<
        HostValue,
        JsError,
    >)
        ensures
            r is Ok,
    {
        match self.object_index(object) {
            Some(id) => {
                let name = property_name.to_owned();
                match self.own_property(id, &name) {
                    Some(value) => Ok(value.clone()),
                    None => Ok(HostValue::Undefined),
                }
            },
            None => {
                proof {
                    lemma_position_exists(Seq::empty(), property_name@);
                }
                Ok(HostValue::Undefined)
            },
        }
    }

    fn js_object_create(&mut self) -> (r: Result<HostValue, JsError>)
        ensures
            old(self).functions_kept(final(self)),
            r is Ok,
    {
        let id = self.allocate(None, None);
        Ok(HostValue::Object(id))
    }

    /// Makes a new object whose prototype is what the property `prototype`
    /// of the constructor holds, and calls the constructor on it. Where the
    /// constructor returns an object that was there before, that object is
    /// the instance; else the new object is.
    fn js_object_construct(&mut self, constructor: &HostValue, args: &[HostValue]) -> (r: Result<
        HostValue,
        JsError,
    >)
        ensures
            old(self).functions_kept(final(self)),
            !old(self).is_function(constructor@) ==> r is Err && final(self)@ == old(self)@
                && r->Err_0 is InvocationError && r->Err_0->InvocationError_0@
                == JsFacadeModel::Plain(JsPlainValue::String("not a constructor"@)),
            old(self).is_function(constructor@) ==> final(self)@ == old(self)@.with_object(
                old(self)@.objects.len() as int,
                JsObjectModel::empty(old(self)@.prototype_of(constructor@)),
            ) && !old(self)@.objects.contains_key(old(self)@.objects.len() as int),
            r matches Ok(instance) ==> instance@ == JsValueModel::Object(
                old(self)@.objects.len() as int,
            ) || old(self)@.is_live(instance@),
            old(self).is_function(constructor@) ==> exists|outcome: Result<HostValue, JsError>|
                #[trigger] old(self).function_yields(
                    constructor@,
                    &HostContext {  },
                    &HostValue::Object(old(self)@.objects.len() as usize),
                    args,
                    outcome,
                ) && constructed(
                    old(self)@,
                    HostValue::Object(old(self)@.objects.len() as usize),
                    outcome,
                    r,
                ),
    {
        let ghost before = *self;
        let k = match self.function_index(constructor) {
            Some(k) => k,
            None => {
                return Err(
                    JsError::InvocationError(
                        JsValueFacade::String("not a constructor".to_owned()),
                    ),
                );
            },
        };
        let holder = match self.object_index(constructor) {
            Some(id) => id,
            None => 0,
        };
        let key = "prototype".to_owned();
        let prototype = match self.own_property(holder, &key) {
            Some(value) => self.object_index(value),
            None => None,
        };
        proof {
            assert(self@.objects.dom() =~= Set::new(|id: int| 0 <= id < self.objects@.len()));
            vstd::set_lib::lemma_int_range(0, self.objects@.len() as int);
            assert(self@.objects.dom() =~= vstd::set_lib::set_int_range(
                0,
                self.objects@.len() as int,
            ));
            assert((match prototype {
                Some(parent) => Some(parent as int),
                None => None,
            }) == self@.prototype_of(constructor@));
        }
        let id = self.allocate(prototype, None);
        let this = HostValue::Object(id);
        let context = HostContext {  };
        let outcome = self.functions[k].function.call(&context, &this, args);
        proof {
            assert(id == before@.objects.len());
            assert(this == HostValue::Object(before@.objects.len() as usize));
            assert(before.function_yields(
                constructor@,
                &HostContext {  },
                &HostValue::Object(before@.objects.len() as usize),
                args,
                outcome,
            ));
        }
        match outcome {
            Ok(value) => {
                let older = self.object_index(&value).is_some() && !self.is_newest(&value);
                proof {
                    assert(before@.is_live(value@) <==> (value@.handle() is Some
                        && 0 <= value@.handle().unwrap() < id));
                    assert(self@.is_live(value@) <==> (value@.handle() is Some
                        && 0 <= value@.handle().unwrap() <= id));
                    assert(older == before@.is_live(value@));
                }
                if older {
                    Ok(value)
                } else {
                    Ok(this)
                }
            },
            Err(e) => Err(JsError::InvocationError(e.into_thrown())),
        }
    }

    fn js_object_get_properties(&self, object: &HostValue) -> (r: Result<Vec<String>, JsError>)
        ensures
            r is Ok,
    {
        let mut names: Vec<String> = Vec::new();
        match self.object_index(object) {
            Some(id) => {
                let properties = &self.objects[id].properties;
                let mut i: usize = 0;
                while i < properties.len()
                    invariant
                        id < self.objects@.len(),
                        *properties == self.objects@[id as int].properties,
                        0 <= i <= properties@.len(),
                        names@.len() == i,
                        forall|j: int| 0 <= j < i ==> (#[trigger] names@[j])@ == properties@[j].name@,
                    decreases properties@.len() - i,
                {
                    names.push(properties[i].name.clone());
                    i = i + 1;
                }
                proof {
                    assert(names_view(names@) =~= property_names(
                        self@.properties(object@),
                    ));
                }
            },
            None => {
                proof {
                    assert(names_view(names@) =~= property_names(
                        self@.properties(object@),
                    ));
                }
            },
        }
        Ok(names)
    }

    fn js_array_get_element(&self, array: &HostValue, index: u32) -> (r: Result<
        HostValue,
        JsError,
    >)
        ensures
            r is Ok <==> self@.is_array(array@),
            r matches Err(e) ==> e is PropertyNotFound && e->PropertyNotFound_0@ == "length"@,
    {
        match self.array_index(array) {
            Some(id) => {
                let elements = &self.objects[id].elements;
                if (index as usize) < elements.len() {
                    Ok(elements[index as usize].clone())
                } else {
                    Ok(HostValue::Undefined)
                }
            },
            None => Err(JsError::PropertyNotFound("length".to_owned())),
        }
    }

    fn js_array_set_element(&mut self, array: &HostValue, index: u32, element: HostValue) -> (r:
        Result<(), JsError>)
        ensures
            old(self).functions_kept(final(self)),
            r is Ok <==> old(self)@.is_array(array@),
            r matches Err(e) ==> e is PropertyNotFound && e->PropertyNotFound_0@ == "length"@,
    {
        match self.array_index(array) {
            Some(id) => {
                self.set_own_element(id, index, element);
                Ok(())
            },
            None => Err(JsError::PropertyNotFound("length".to_owned())),
        }
    }

    fn js_array_get_length(&self, array: &HostValue) -> (r: Result<u32, JsError>)
        ensures
            r is Ok <==> self@.is_array(array@),
            r matches Err(e) ==> e is PropertyNotFound && e->PropertyNotFound_0@ == "length"@,
    {
        match self.array_index(array) {
            Some(id) => {
                proof {
                    assert(self.objects@[id as int].wf(id as int, self.functions@.len() as int));
                }
                Ok(self.objects[id].elements.len() as u32)
            },
            None => Err(JsError::PropertyNotFound("length".to_owned())),
        }
    }

    fn js_array_create(&mut self) -> (r: Result<HostValue, JsError>)
        ensures
            old(self).functions_kept(final(self)),
            r is Ok,
    {
        let id = self.allocate(None, None);
        Ok(HostValue::Array(id))
    }

    fn js_promise_create(&mut self) -> (r: Result<crate::host_promise::HostPromise, JsError>)
        ensures
            old(self).functions_kept(final(self)),
            r is Ok,
            r->Ok_0.waiting() == 0,
            final(self)@ == old(self)@,
    {
        Ok(crate::host_promise::HostPromise::new())
    }

    /// The identifiers are handed out in order, from 0, and none twice.
    fn js_cache_add(&mut self, object: HostValue) -> (id: i32)
        ensures
            old(self).functions_kept(final(self)),
            id == old(self)@.issued,
    {
        let ghost before = *self;
        let id = self.cache.len() as i32;
        self.cache.push(Some(object));
        proof {
            assert forall|other: int| 0 <= other < self.objects@.len() implies (
            #[trigger] self.objects@[other]).wf(other, self.functions@.len() as int) by {
                assert(before.objects@[other].wf(other, before.functions@.len() as int));
            }
            assert(self@.objects =~= before@.objects);
            assert(self@.proxies =~= before@.proxies);
            assert(self@.cache =~= before@.cache.insert(id, object@));
            before.lemma_same_functions(self);
        }
        id
    }

    fn js_cache_dispose(&mut self, id: i32)
        ensures
            old(self).functions_kept(final(self)),
    {
        let ghost before = *self;
        self.cache[id as usize] = None;
        proof {
            assert forall|other: int| 0 <= other < self.objects@.len() implies (
            #[trigger] self.objects@[other]).wf(other, self.functions@.len() as int) by {
                assert(before.objects@[other].wf(other, before.functions@.len() as int));
            }
            assert(self@.objects =~= before@.objects);
            assert(self@.proxies =~= before@.proxies);
            assert(self@.cache =~= before@.cache.remove(id));
            before.lemma_same_functions(self);
        }
    }

    fn js_cache_with<C, R>(&self, id: i32, consumer: C) -> (r: R) where
        C: FnOnce(&HostValue) -> R,
     {
        proof {
            assert(self@.cache.contains_key(id));
            assert(self@.cache[id] == self.cache@[id as int]->Some_0@);
        }
        match &self.cache[id as usize] {
            Some(value) => {
                proof {
                    assert(value.model() == self.model().cache[id]);
                }
                consumer(value)
            },
            None => {
                let undefined = HostValue::Undefined;
                consumer(&undefined)
            },
        }
    }

    fn js_cache_consume(&mut self, id: i32) -> (value: HostValue)
        ensures
            old(self).functions_kept(final(self)),
    {
        let ghost before = *self;
        let taken = self.cache[id as usize].take();
        proof {
            assert forall|other: int| 0 <= other < self.objects@.len() implies (
            #[trigger] self.objects@[other]).wf(other, self.functions@.len() as int) by {
                assert(before.objects@[other].wf(other, before.functions@.len() as int));
            }
            assert(self@.objects =~= before@.objects);
            assert(self@.proxies =~= before@.proxies);
            assert(self@.cache =~= before@.cache.remove(id));
            before.lemma_same_functions(self);
        }
        match taken {
            Some(value) => value,
            None => HostValue::Undefined,
        }
    }

    fn js_instance_of(&self, object: &HostValue, constructor: &HostValue) -> (b: bool) {
        let start = match self.object_index(object) {
            Some(id) => id,
            None => {
                return false;
            },
        };
        let holder = match self.object_index(constructor) {
            Some(id) => id,
            None => {
                proof {
                    lemma_position_exists(Seq::empty(), "prototype"@);
                }
                return false;
            },
        };
        let key = "prototype".to_owned();
        let target = match self.own_property(holder, &key) {
            Some(value) => match self.object_index(value) {
                Some(id) => id,
                None => {
                    return false;
                },
            },
            None => {
                return false;
            },
        };
        let mut current = start;
        proof {
            assert(self@.prototype_of(constructor@) == Some(target as int));
        }
        loop
            invariant
                self.wf(),
                self@.is_live(object@),
                object@.handle() == Some(start as int),
                self@.prototype_of(constructor@) == Some(target as int),
                current < self.objects@.len(),
                self@.prototype_chain(start as int).contains(target as int)
                    == self@.prototype_chain(current as int).contains(target as int),
            decreases current,
        {
            proof {
                assert(self.objects@[current as int].wf(
                    current as int,
                    self.functions@.len() as int,
                ));
            }
            match self.objects[current].prototype {
                Some(parent) => {
                    proof {
                        let chain = self@.prototype_chain(current as int);
                        let rest = self@.prototype_chain(parent as int);
                        assert(chain == seq![parent as int] + rest);
                        assert(chain[0] == parent);
                        if rest.contains(target as int) {
                            let at = choose|at: int| 0 <= at < rest.len() && rest[at] == target;
                            assert(chain[at + 1] == target);
                        }
                    }
                    if parent == target {
                        return true;
                    }
                    current = parent;
                },
                None => {
                    return false;
                },
            }
        }
    }
}

} // verus!
