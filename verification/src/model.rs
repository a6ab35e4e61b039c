//! The mathematical model that the adapter contracts speak of: what a value
//! is, what an object holds, and what a realm's state is.

use vstd::prelude::*;
use crate::facades::JsPlainValue;
use crate::proxies::JsProxyModel;
use crate::value_type::JsValueType;

verus! {

/// What an engine value is. A plain value is its own content; a value of one
/// of the object categories is a handle: the identity of an object of the
/// realm it lives in.
pub enum JsValueModel {
    Plain(JsPlainValue),
    Object(int),
    Function(int),
    Array(int),
    Promise(int),
    Date(int),
    BigInt(int),
}

impl JsValueModel {
    /// The category of the value. It is computed from the value and stored
    /// nowhere else.
    pub open spec fn kind(self) -> JsValueType {
        match self {
            JsValueModel::Plain(p) => p.kind(),
            JsValueModel::Object(_) => JsValueType::Object,
            JsValueModel::Function(_) => JsValueType::Function,
            JsValueModel::Array(_) => JsValueType::Array,
            JsValueModel::Promise(_) => JsValueType::Promise,
            JsValueModel::Date(_) => JsValueType::Date,
            JsValueModel::BigInt(_) => JsValueType::BigInt,
        }
    }

    /// The identity of the object that a handle refers to.
    pub open spec fn handle(self) -> Option<int> {
        match self {
            JsValueModel::Object(id)
            | JsValueModel::Function(id)
            | JsValueModel::Array(id)
            | JsValueModel::Promise(id)
            | JsValueModel::Date(id) => Some(id),
            _ => None,
        }
    }

    pub open spec fn undefined() -> JsValueModel {
        JsValueModel::Plain(JsPlainValue::Undefined)
    }

    pub open spec fn null() -> JsValueModel {
        JsValueModel::Plain(JsPlainValue::Null)
    }
}

/// The own enumerable properties of an object, in insertion order.
pub type JsProperties = Seq<(Seq<char>, JsValueModel)>;

/// `i` is where the property `name` stands in `properties`, or the length of
/// `properties` where there is no such property.
pub open spec fn is_position(properties: JsProperties, name: Seq<char>, i: int) -> bool {
    &&& 0 <= i <= properties.len()
    &&& i < properties.len() ==> properties[i].0 == name
    &&& forall|j: int| 0 <= j < i ==> (#[trigger] properties[j]).0 != name
}

pub open spec fn position(properties: JsProperties, name: Seq<char>) -> int {
    choose|i: int| is_position(properties, name, i)
}

pub open spec fn has_property(properties: JsProperties, name: Seq<char>) -> bool {
    position(properties, name) < properties.len()
}

/// The value of the property `name`; a missing property reads as
/// `undefined`.
pub open spec fn property_value(properties: JsProperties, name: Seq<char>) -> JsValueModel {
    if has_property(properties, name) {
        properties[position(properties, name)].1
    } else {
        JsValueModel::undefined()
    }
}

/// Assigning keeps a property at its place; a new property goes last.
pub open spec fn with_property(
    properties: JsProperties,
    name: Seq<char>,
    value: JsValueModel,
) -> JsProperties {
    if has_property(properties, name) {
        properties.update(position(properties, name), (name, value))
    } else {
        properties.push((name, value))
    }
}

pub open spec fn without_property(properties: JsProperties, name: Seq<char>) -> JsProperties {
    if has_property(properties, name) {
        properties.remove(position(properties, name))
    } else {
        properties
    }
}

pub open spec fn property_names(properties: JsProperties) -> Seq<Seq<char>> {
    Seq::new(properties.len(), |i: int| properties[i].0)
}

pub open spec fn distinct_names(properties: JsProperties) -> bool {
    forall|i: int, j: int|
        0 <= i < j < properties.len() ==> (#[trigger] properties[i]).0 != (
        #[trigger] properties[j]).0
}

/// A property has one position.
pub proof fn lemma_position_is(properties: JsProperties, name: Seq<char>, i: int)
    requires
        is_position(properties, name, i),
    ensures
        position(properties, name) == i,
{
    let p = position(properties, name);
    if p < i {
        assert(properties[p].0 != name);
    } else if i < p {
        assert(properties[i].0 != name);
    }
}

/// Every name has a position in every list of properties.
pub proof fn lemma_position_exists(properties: JsProperties, name: Seq<char>)
    ensures
        is_position(properties, name, position(properties, name)),
    decreases properties.len(),
{
    if properties.len() == 0 {
        assert(is_position(properties, name, 0));
    } else {
        let front = properties.drop_last();
        lemma_position_exists(front, name);
        let p = position(front, name);
        if p < front.len() {
            assert(front[p] == properties[p]);
            assert forall|j: int| 0 <= j < p implies (#[trigger] properties[j]).0 != name by {
                assert(front[j] == properties[j]);
            }
            assert(is_position(properties, name, p));
        } else {
            let q = if properties.last().0 == name {
                properties.len() - 1
            } else {
                properties.len() as int
            };
            assert forall|j: int| 0 <= j < q implies (#[trigger] properties[j]).0 != name by {
                if j < front.len() {
                    assert(front[j] == properties[j]);
                }
            }
            assert(is_position(properties, name, q));
        }
    }
}

/// Under distinct names a property stands where its name is found.
pub proof fn lemma_distinct_position(properties: JsProperties, i: int)
    requires
        distinct_names(properties),
        0 <= i < properties.len(),
    ensures
        position(properties, properties[i].0) == i,
        has_property(properties, properties[i].0),
        property_value(properties, properties[i].0) == properties[i].1,
{
    assert(is_position(properties, properties[i].0, i));
    lemma_position_is(properties, properties[i].0, i);
}

/// The element at `index`; reading past the end gives `undefined`.
pub open spec fn element_value(elements: Seq<JsValueModel>, index: int) -> JsValueModel {
    if 0 <= index < elements.len() {
        elements[index]
    } else {
        JsValueModel::undefined()
    }
}

/// Assigning past the end fills the gap with `undefined`.
pub open spec fn with_element(elements: Seq<JsValueModel>, index: int, value: JsValueModel) -> Seq<
    JsValueModel,
> {
    if 0 <= index < elements.len() {
        elements.update(index, value)
    } else {
        Seq::new(
            (index + 1) as nat,
            |i: int|
                if i < elements.len() {
                    elements[i]
                } else if i == index {
                    value
                } else {
                    JsValueModel::undefined()
                },
        )
    }
}

/// One object of a realm.
pub struct JsObjectModel {
    pub properties: JsProperties,
    pub elements: Seq<JsValueModel>,
    pub prototype: Option<int>,
}

impl JsObjectModel {
    pub open spec fn empty(prototype: Option<int>) -> JsObjectModel {
        JsObjectModel { properties: Seq::empty(), elements: Seq::empty(), prototype }
    }
}

/// The state of a realm: its objects by identity, the global object, the
/// table of instances kept alive by an identifier, and the host classes
/// installed in it.
pub struct JsRealmModel {
    pub objects: Map<int, JsObjectModel>,
    pub global: int,
    pub cache: Map<i32, JsValueModel>,
    /// How many identifiers the cache has handed out so far.
    pub issued: nat,
    pub proxies: Set<JsProxyModel>,
}

impl JsRealmModel {
    /// The object that `value` refers to, where it is a handle of this realm.
    pub open spec fn is_live(self, value: JsValueModel) -> bool {
        value.handle() is Some && self.objects.contains_key(value.handle().unwrap())
    }

    pub open spec fn object(self, value: JsValueModel) -> JsObjectModel {
        self.objects[value.handle().unwrap()]
    }

    /// The properties of `value`; what is no object of this realm has none.
    pub open spec fn properties(self, value: JsValueModel) -> JsProperties {
        if self.is_live(value) {
            self.object(value).properties
        } else {
            Seq::empty()
        }
    }

    pub open spec fn is_array(self, value: JsValueModel) -> bool {
        value is Array && self.is_live(value)
    }

    pub open spec fn elements(self, value: JsValueModel) -> Seq<JsValueModel> {
        if self.is_array(value) {
            self.object(value).elements
        } else {
            Seq::empty()
        }
    }

    pub open spec fn with_cache(self, cache: Map<i32, JsValueModel>) -> JsRealmModel {
        JsRealmModel { cache, ..self }
    }

    /// The state after `value` was put into the cache under the new
    /// identifier `id`.
    pub open spec fn with_cached(self, id: i32, value: JsValueModel) -> JsRealmModel {
        JsRealmModel { cache: self.cache.insert(id, value), issued: self.issued + 1, ..self }
    }

    pub open spec fn with_proxy(self, proxy: JsProxyModel) -> JsRealmModel {
        JsRealmModel { proxies: self.proxies.insert(proxy), ..self }
    }

    /// What the host alone changes is in `after` as it is here: the cache
    /// and the installed host classes. Scripts do not reach them.
    pub open spec fn host_side_kept(self, after: JsRealmModel) -> bool {
        after.cache == self.cache && after.issued == self.issued && after.proxies == self.proxies
    }

    /// The state after the function object `function` was made and became
    /// the property `name` of `target`.
    pub open spec fn with_function(
        self,
        function: int,
        made: JsObjectModel,
        target: JsValueModel,
        name: Seq<char>,
    ) -> JsRealmModel {
        let grown = self.with_object(function, made);
        grown.with_properties(
            target,
            with_property(grown.properties(target), name, JsValueModel::Function(function)),
        )
    }

    pub open spec fn with_object(self, id: int, object: JsObjectModel) -> JsRealmModel {
        JsRealmModel { objects: self.objects.insert(id, object), ..self }
    }

    /// The state after `properties` became the properties of `target`.
    pub open spec fn with_properties(self, target: JsValueModel, properties: JsProperties)
        -> JsRealmModel {
        self.with_object(
            target.handle().unwrap(),
            JsObjectModel { properties, ..self.object(target) },
        )
    }

    /// The state after `elements` became the elements of `target`.
    pub open spec fn with_elements(self, target: JsValueModel, elements: Seq<JsValueModel>)
        -> JsRealmModel {
        self.with_object(
            target.handle().unwrap(),
            JsObjectModel { elements, ..self.object(target) },
        )
    }

    /// The namespace that a path of property names leads to from `from`.
    /// Every segment must be present and hold an object of this realm; the
    /// empty path leads to `from` itself.
    pub open spec fn resolve(self, from: JsValueModel, path: Seq<Seq<char>>) -> Option<
        JsValueModel,
    >
        decreases path.len(),
    {
        if path.len() == 0 {
            Some(from)
        } else {
            let next = property_value(self.properties(from), path[0]);
            if self.is_live(next) {
                self.resolve(next, path.drop_first())
            } else {
                None
            }
        }
    }

    /// The namespace at `path`, counted from the global object.
    pub open spec fn namespace(self, path: Seq<Seq<char>>) -> Option<JsValueModel> {
        self.resolve(self.global_value(), path)
    }

    pub open spec fn global_value(self) -> JsValueModel {
        JsValueModel::Object(self.global)
    }

    /// The prototypes of the object `id`, nearest first. A prototype is older
    /// than the object it serves, so its identity is the smaller one.
    pub open spec fn prototype_chain(self, id: int) -> Seq<int>
        decreases id,
    {
        if self.objects.contains_key(id) {
            match self.objects[id].prototype {
                Some(parent) => if 0 <= parent < id {
                    seq![parent] + self.prototype_chain(parent)
                } else {
                    Seq::empty()
                },
                None => Seq::empty(),
            }
        } else {
            Seq::empty()
        }
    }

    /// The object that instances made by `constructor` have as their
    /// prototype: what its property `prototype` holds, where that is an
    /// object of this realm.
    pub open spec fn prototype_of(self, constructor: JsValueModel) -> Option<int> {
        let held = property_value(self.properties(constructor), "prototype"@);
        if self.is_live(held) {
            held.handle()
        } else {
            None
        }
    }

    /// `object instanceof constructor`.
    pub open spec fn instance_of(self, object: JsValueModel, constructor: JsValueModel) -> bool {
        &&& self.is_live(object)
        &&& self.prototype_of(constructor) is Some
        &&& self.prototype_chain(object.handle().unwrap()).contains(
            self.prototype_of(constructor).unwrap(),
        )
    }

    /// The global object exists, every object has its properties under
    /// distinct names, and an array no more elements than a 32-bit length
    /// can count.
    pub open spec fn wf(self) -> bool {
        &&& self.objects.contains_key(self.global)
        &&& forall|id: int| #[trigger]
            self.objects.contains_key(id) ==> distinct_names(self.objects[id].properties)
                && self.objects[id].elements.len() <= u32::MAX
    }
}

/// `after` holds what `before` holds: every object of `before` is there,
/// and none of its properties has gone or changed.
pub open spec fn grows(before: JsRealmModel, after: JsRealmModel) -> bool {
    &&& after.global == before.global
    &&& forall|id: int| #[trigger]
        before.objects.contains_key(id) ==> after.objects.contains_key(id)
    &&& forall|id: int, name: Seq<char>|
        before.objects.contains_key(id) && #[trigger] has_property(
            before.objects[id].properties,
            name,
        ) ==> has_property(after.objects[id].properties, name) && property_value(
            after.objects[id].properties,
            name,
        ) == property_value(before.objects[id].properties, name)
}

pub proof fn lemma_grows_transitive(a: JsRealmModel, b: JsRealmModel, c: JsRealmModel)
    requires
        grows(a, b),
        grows(b, c),
    ensures
        grows(a, c),
{
    assert forall|id: int, name: Seq<char>|
        a.objects.contains_key(id) && #[trigger] has_property(
            a.objects[id].properties,
            name,
        ) implies has_property(c.objects[id].properties, name) && property_value(
        c.objects[id].properties,
        name,
    ) == property_value(a.objects[id].properties, name) by {
        assert(b.objects.contains_key(id));
        assert(has_property(b.objects[id].properties, name));
    }
}

/// A new object takes nothing away.
pub proof fn lemma_grows_by_object(before: JsRealmModel, id: int, object: JsObjectModel)
    requires
        !before.objects.contains_key(id),
    ensures
        grows(before, before.with_object(id, object)),
{
}

/// A new property leaves the others as they are.
pub proof fn lemma_push_keeps(
    properties: JsProperties,
    name: Seq<char>,
    value: JsValueModel,
    other: Seq<char>,
)
    requires
        has_property(properties, other),
    ensures
        has_property(properties.push((name, value)), other),
        property_value(properties.push((name, value)), other) == property_value(
            properties,
            other,
        ),
{
    lemma_position_exists(properties, other);
    let p = position(properties, other);
    let pushed = properties.push((name, value));
    assert(pushed[p] == properties[p]);
    assert forall|j: int| 0 <= j < p implies (#[trigger] pushed[j]).0 != other by {
        assert(pushed[j] == properties[j]);
    }
    assert(is_position(pushed, other, p));
    lemma_position_is(pushed, other, p);
}

/// Assigning a property that an object did not have takes nothing away.
pub proof fn lemma_grows_by_property(
    before: JsRealmModel,
    target: JsValueModel,
    name: Seq<char>,
    value: JsValueModel,
)
    requires
        before.is_live(target),
        !has_property(before.properties(target), name),
    ensures
        grows(
            before,
            before.with_properties(target, with_property(before.properties(target), name, value)),
        ),
{
    let after = before.with_properties(
        target,
        with_property(before.properties(target), name, value),
    );
    let t = target.handle().unwrap();
    assert forall|id: int, other: Seq<char>|
        before.objects.contains_key(id) && #[trigger] has_property(
            before.objects[id].properties,
            other,
        ) implies has_property(after.objects[id].properties, other) && property_value(
        after.objects[id].properties,
        other,
    ) == property_value(before.objects[id].properties, other) by {
        if id == t {
            lemma_push_keeps(before.objects[id].properties, name, value, other);
        }
    }
}

/// What a property holds after it was assigned.
pub proof fn lemma_property_assigned(properties: JsProperties, name: Seq<char>, value: JsValueModel)
    ensures
        has_property(with_property(properties, name, value), name),
        property_value(with_property(properties, name, value), name) == value,
{
    lemma_position_exists(properties, name);
    let p = position(properties, name);
    let assigned = with_property(properties, name, value);
    assert forall|j: int| 0 <= j < p implies (#[trigger] assigned[j]).0 != name by {
        assert(assigned[j] == properties[j]);
    }
    assert(is_position(assigned, name, p));
    lemma_position_is(assigned, name, p);
}

impl JsRealmModel {
    /// One step of a walk: the object that the property `name` of `from`
    /// holds.
    pub open spec fn step(self, from: JsValueModel, name: Seq<char>) -> Option<JsValueModel> {
        let next = property_value(self.properties(from), name);
        if self.is_live(next) {
            Some(next)
        } else {
            None
        }
    }

    /// A walk along two paths in a row is the walk along the first, then
    /// along the second.
    pub proof fn lemma_resolve_concat(
        self,
        from: JsValueModel,
        first: Seq<Seq<char>>,
        second: Seq<Seq<char>>,
    )
        ensures
            self.resolve(from, first + second) == match self.resolve(from, first) {
                Some(middle) => self.resolve(middle, second),
                None => None,
            },
        decreases first.len(),
    {
        if first.len() == 0 {
            assert(first + second =~= second);
        } else {
            let whole = first + second;
            assert(whole[0] == first[0]);
            assert(whole.drop_first() =~= first.drop_first() + second);
            let next = property_value(self.properties(from), first[0]);
            if self.is_live(next) {
                self.lemma_resolve_concat(next, first.drop_first(), second);
            }
        }
    }

    /// A walk along one name is one step.
    pub proof fn lemma_resolve_one(self, from: JsValueModel, name: Seq<char>)
        ensures
            self.resolve(from, seq![name]) == self.step(from, name),
    {
        let path = seq![name];
        assert(path.drop_first() =~= Seq::<Seq<char>>::empty());
        let next = property_value(self.properties(from), name);
        if self.is_live(next) {
            assert(self.resolve(next, path.drop_first()) == Some(next));
        }
    }

    /// A walk that led somewhere still leads there after the realm grew.
    pub proof fn lemma_resolve_grows(
        self,
        after: JsRealmModel,
        from: JsValueModel,
        path: Seq<Seq<char>>,
    )
        requires
            grows(self, after),
            self.resolve(from, path) is Some,
        ensures
            after.resolve(from, path) == self.resolve(from, path),
        decreases path.len(),
    {
        if path.len() > 0 {
            let next = property_value(self.properties(from), path[0]);
            assert(self.is_live(next));
            lemma_position_exists(self.properties(from), path[0]);
            assert(self.is_live(from));
            let id = from.handle().unwrap();
            assert(self.objects.contains_key(id));
            assert(has_property(self.objects[id].properties, path[0]));
            assert(after.objects.contains_key(id));
            assert(after.objects.contains_key(next.handle().unwrap()));
            self.lemma_resolve_grows(after, next, path.drop_first());
        }
    }
}

impl JsRealmModel {
    /// The walk along `path` from the global object is held up at the name
    /// `i`: the walk gets there, the name is a property, and it holds what
    /// is no object.
    pub open spec fn held_up_at(self, path: Seq<Seq<char>>, i: int) -> bool {
        &&& 0 <= i < path.len()
        &&& match self.resolve(self.global_value(), path.take(i)) {
            Some(reached) => has_property(self.properties(reached), path[i]) && self.step(
                reached,
                path[i],
            ) is None,
            None => false,
        }
    }

    /// The walk along `path` from the global object stops at the name `i`:
    /// the walk gets there, and the name leads to no object.
    pub open spec fn stops_at(self, path: Seq<Seq<char>>, i: int) -> bool {
        &&& 0 <= i < path.len()
        &&& match self.resolve(self.global_value(), path.take(i)) {
            Some(reached) => self.step(reached, path[i]) is None,
            None => false,
        }
    }

    /// The walk along `path` is held up somewhere.
    pub open spec fn held_up(self, path: Seq<Seq<char>>) -> bool {
        exists|i: int| self.held_up_at(path, i)
    }

    /// A walk that fails at its first name fails.
    pub proof fn lemma_resolve_stops(self, from: JsValueModel, path: Seq<Seq<char>>)
        requires
            path.len() > 0,
            self.step(from, path[0]) is None,
        ensures
            self.resolve(from, path) is None,
    {
    }

    /// A walk stops at one name or at none: where it stops at `k`, it is
    /// held up at no other name.
    pub proof fn lemma_stops_once(self, path: Seq<Seq<char>>, k: int, i: int)
        requires
            0 <= k <= path.len(),
            self.resolve(self.global_value(), path.take(k)) is Some,
            k < path.len() ==> self.step(
                self.resolve(self.global_value(), path.take(k)).unwrap(),
                path[k],
            ) is None,
            self.held_up_at(path, i),
        ensures
            i == k,
    {
        let global = self.global_value();
        if i < k {
            let reached = self.resolve(global, path.take(i)).unwrap();
            let rest = path.subrange(i, k);
            assert(path.take(i) + rest =~= path.take(k));
            self.lemma_resolve_concat(global, path.take(i), rest);
            assert(rest[0] == path[i]);
            self.lemma_resolve_stops(reached, rest);
        } else if i > k {
            let reached = self.resolve(global, path.take(k)).unwrap();
            let rest = path.subrange(k, i);
            assert(path.take(k) + rest =~= path.take(i));
            self.lemma_resolve_concat(global, path.take(k), rest);
            assert(rest[0] == path[k]);
            self.lemma_resolve_stops(reached, rest);
        }
    }
}

/// The life of a cached value: once put in, it is found under its
/// identifier, the same at every look, and the other values stay; once taken
/// out, the identifier leads nowhere and the cache holds what it held
/// before.
pub proof fn lemma_cache_lifecycle(before: JsRealmModel, id: i32, value: JsValueModel)
    requires
        !before.cache.contains_key(id),
    ensures
        before.with_cached(id, value).cache.contains_key(id),
        before.with_cached(id, value).cache[id] == value,
        forall|other: i32| #[trigger]
            before.cache.contains_key(other) ==> before.with_cached(id, value).cache.contains_key(
                other,
            ) && before.with_cached(id, value).cache[other] == before.cache[other],
        !before.with_cached(id, value).with_cache(
            before.with_cached(id, value).cache.remove(id),
        ).cache.contains_key(id),
        before.with_cached(id, value).with_cache(
            before.with_cached(id, value).cache.remove(id),
        ).cache == before.cache,
{
    assert(before.cache.insert(id, value).remove(id) =~= before.cache);
}

impl JsRealmModel {
    /// The prototype chain is walked link by link: an object is an instance
    /// of a constructor where its own prototype is the constructor's, or
    /// where its prototype is an instance.
    pub proof fn lemma_instance_of_unfolds(
        self,
        object: JsValueModel,
        constructor: JsValueModel,
        parent: int,
    )
        requires
            self.is_live(object),
            self.object(object).prototype == Some(parent),
            0 <= parent < object.handle().unwrap(),
        ensures
            self.instance_of(object, constructor) <==> self.prototype_of(constructor) == Some(
                parent,
            ) || self.instance_of(JsValueModel::Object(parent), constructor),
    {
        let id = object.handle().unwrap();
        let chain = self.prototype_chain(id);
        let rest = self.prototype_chain(parent);
        assert(chain == seq![parent] + rest);
        if self.prototype_of(constructor) is Some {
            let target = self.prototype_of(constructor).unwrap();
            if chain.contains(target) {
                let at = choose|at: int| 0 <= at < chain.len() && chain[at] == target;
                if at > 0 {
                    assert(rest[at - 1] == target);
                }
            }
            if rest.contains(target) {
                let at = choose|at: int| 0 <= at < rest.len() && rest[at] == target;
                assert(chain[at + 1] == target);
            }
            if target == parent {
                assert(chain[0] == target);
            }
            if !self.objects.contains_key(parent) {
                assert(rest.len() == 0);
            }
        }
    }

    /// An object without a prototype is an instance of nothing.
    pub proof fn lemma_instance_of_nothing(self, object: JsValueModel, constructor: JsValueModel)
        requires
            self.is_live(object),
            self.object(object).prototype is None,
        ensures
            !self.instance_of(object, constructor),
    {
    }
}

} // verus!
