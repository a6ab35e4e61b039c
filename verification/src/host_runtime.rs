//! The host runtime: host realms under their identifiers.

use vstd::prelude::*;
use crate::adapters::{JsRealmAdapter, JsRuntimeAdapter};
use crate::errors::JsError;
use crate::host_realm::HostRealm;
use crate::model::JsRealmModel;

verus! {

struct HostRealmEntry {
    id: String,
    realm: HostRealm,
}

/// A runtime of host realms. The main realm is the first one.
pub struct HostRuntime {
    entries: Vec<HostRealmEntry>,
}

impl HostRuntime {
    /// Whether a realm stands under `id`.
    spec fn has(&self, id: Seq<char>) -> bool {
        exists|i: int| 0 <= i < self.entries@.len() && (#[trigger] self.entries@[i]).id@ == id
    }

    /// Where the realm `id` stands.
    spec fn place(&self, id: Seq<char>) -> int {
        choose|i: int| 0 <= i < self.entries@.len() && (#[trigger] self.entries@[i]).id@ == id
    }

    /// There is a main realm, no identifier stands twice, and every realm
    /// is in order.
    pub closed spec fn wf(&self) -> bool {
        &&& self.entries@.len() >= 1
        &&& forall|i: int, j: int|
            0 <= i < j < self.entries@.len() ==> (#[trigger] self.entries@[i]).id@ != (
            #[trigger] self.entries@[j]).id@
        &&& forall|i: int| 0 <= i < self.entries@.len() ==> (#[trigger] self.entries@[i]).realm.wf()
    }

    pub closed spec fn realm_models(&self) -> Map<Seq<char>, JsRealmModel> {
        Map::new(|id: Seq<char>| self.has(id), |id: Seq<char>| self.entries@[self.place(id)].realm@)
    }

    pub closed spec fn main_id(&self) -> Seq<char> {
        self.entries@[0].id@
    }

    /// A runtime with an empty main realm under `main_id`.
    pub fn new(main_id: &str) -> (runtime: HostRuntime)
        ensures
            runtime.wf(),
            runtime.main_id() == main_id@,
            runtime.realm_models().dom() == Set::<Seq<char>>::empty().insert(main_id@),
    {
        let mut entries: Vec<HostRealmEntry> = Vec::new();
        entries.push(HostRealmEntry { id: main_id.to_owned(), realm: HostRealm::new() });
        let runtime = HostRuntime { entries };
        proof {
            assert forall|id: Seq<char>| runtime.has(id) <==> id == main_id@ by {
                if id == main_id@ {
                    assert(runtime.entries@[0].id@ == id);
                }
            }
            assert(runtime.realm_models().dom() =~= Set::<Seq<char>>::empty().insert(main_id@));
        }
        runtime
    }

    /// Where the realm `id` stands.
    fn find(&self, id: &String) -> (r: Option<usize>)
        requires
            self.wf(),
        ensures
            r is Some <==> self.has(id@),
            r matches Some(i) ==> i < self.entries@.len() && self.entries@[i as int].id@ == id@
                && self.place(id@) == i,
    {
        let mut i: usize = 0;
        while i < self.entries.len()
            invariant
                self.wf(),
                0 <= i <= self.entries@.len(),
                forall|j: int| 0 <= j < i ==> (#[trigger] self.entries@[j]).id@ != id@,
            decreases self.entries@.len() - i,
        {
            if self.entries[i].id == *id {
                proof {
                    assert(self.has(id@));
                    let p = self.place(id@);
                    if p != i {
                        if p < i {
                            assert(self.entries@[p].id@ != id@);
                        } else {
                            assert(self.entries@[i as int].id@ != self.entries@[p].id@);
                        }
                    }
                }
                return Some(i);
            }
            i = i + 1;
        }
        None
    }

    /// Whatever realm comes to stand in the place `i`, the model changes at
    /// its identifier alone.
    proof fn lemma_replacing(before: &HostRuntime, i: int)
        requires
            before.wf(),
            0 <= i < before.entries@.len(),
        ensures
            forall|after: HostRuntime|
                after.entries@.len() == before.entries@.len() && after.entries@[i].id
                    == before.entries@[i].id && (forall|j: int|
                    0 <= j < before.entries@.len() && j != i ==> after.entries@[j]
                        == before.entries@[j]) ==> #[trigger] after.realm_models()
                    == before.realm_models().insert(
                    before.entries@[i].id@,
                    after.entries@[i].realm@,
                ) && after.main_id() == before.main_id() && (after.entries@[i].realm.wf()
                    ==> after.wf()),
    {
        assert forall|after: HostRuntime|
            after.entries@.len() == before.entries@.len() && after.entries@[i].id
                == before.entries@[i].id && (forall|j: int|
                0 <= j < before.entries@.len() && j != i ==> after.entries@[j]
                    == before.entries@[j]) implies #[trigger] after.realm_models()
            == before.realm_models().insert(before.entries@[i].id@, after.entries@[i].realm@)
            && after.main_id() == before.main_id() && (after.entries@[i].realm.wf()
            ==> after.wf()) by {
            Self::lemma_realm_replaced(before, &after, i);
        }
    }

    /// A realm under a new identifier is one more realm of the model.
    proof fn lemma_realm_added(before: &HostRuntime, after: &HostRuntime)
        requires
            before.wf(),
            after.entries@ == before.entries@.push(after.entries@.last()),
            !before.has(after.entries@.last().id@),
            after.entries@.last().realm.wf(),
        ensures
            after.wf(),
            after.main_id() == before.main_id(),
            after.realm_models() == before.realm_models().insert(
                after.entries@.last().id@,
                after.entries@.last().realm@,
            ),
    {
        let n = before.entries@.len() as int;
        let key = after.entries@[n].id@;
        assert forall|a: int, b: int| 0 <= a < b < after.entries@.len() implies (
        #[trigger] after.entries@[a]).id@ != (#[trigger] after.entries@[b]).id@ by {
            assert(after.entries@[a] == before.entries@[a]);
            if b < n {
                assert(after.entries@[b] == before.entries@[b]);
                assert(before.entries@[a].id@ != before.entries@[b].id@);
            } else {
                assert(before.entries@[a].id@ != key);
            }
        }
        assert forall|a: int| 0 <= a < after.entries@.len() implies (
        #[trigger] after.entries@[a]).realm.wf() by {
            if a < n {
                assert(after.entries@[a] == before.entries@[a]);
                assert(before.entries@[a].realm.wf());
            }
        }
        assert(after.entries@[0] == before.entries@[0]);
        assert forall|id: Seq<char>| after.has(id) <==> (before.has(id) || id == key) by {
            if before.has(id) {
                let p = before.place(id);
                assert(after.entries@[p] == before.entries@[p]);
                assert(after.entries@[p].id@ == id);
            }
            if id == key {
                assert(after.entries@[n].id@ == id);
            }
            if after.has(id) {
                let p = after.place(id);
                if p < n {
                    assert(after.entries@[p] == before.entries@[p]);
                    assert(before.entries@[p].id@ == id);
                }
            }
        }
        assert forall|id: Seq<char>| after.has(id) implies #[trigger] after.realm_models()[id]
            == before.realm_models().insert(key, after.entries@[n].realm@)[id] by {
            let p = after.place(id);
            if id == key {
                if p != n {
                    assert(after.entries@[p].id@ != after.entries@[n].id@);
                }
            } else {
                assert(p < n);
                assert(after.entries@[p] == before.entries@[p]);
                let q = before.place(id);
                if p != q {
                    if p < q {
                        assert(before.entries@[p].id@ != before.entries@[q].id@);
                    } else {
                        assert(before.entries@[q].id@ != before.entries@[p].id@);
                    }
                }
            }
        }
        assert(after.realm_models() =~= before.realm_models().insert(
            key,
            after.entries@[n].realm@,
        ));
    }

    /// Putting another realm in the place `i` changes the model at its
    /// identifier alone.
    proof fn lemma_realm_replaced(before: &HostRuntime, after: &HostRuntime, i: int)
        requires
            before.wf(),
            0 <= i < before.entries@.len(),
            after.entries@.len() == before.entries@.len(),
            after.entries@[i].id == before.entries@[i].id,
            forall|j: int|
                0 <= j < before.entries@.len() && j != i ==> after.entries@[j]
                    == before.entries@[j],
        ensures
            after.realm_models() == before.realm_models().insert(
                before.entries@[i].id@,
                after.entries@[i].realm@,
            ),
            after.main_id() == before.main_id(),
            after.entries@[i].realm.wf() ==> after.wf(),
    {
        let key = before.entries@[i].id@;
        assert forall|id: Seq<char>| after.has(id) <==> before.has(id) by {
            if before.has(id) {
                let p = before.place(id);
                assert(after.entries@[p].id@ == id);
            }
            if after.has(id) {
                let p = after.place(id);
                assert(before.entries@[p].id@ == id);
            }
        }
        assert forall|id: Seq<char>| after.has(id) implies #[trigger] after.realm_models()[id]
            == before.realm_models().insert(key, after.entries@[i].realm@)[id] by {
            let p = after.place(id);
            let q = before.place(id);
            assert(before.entries@[p].id@ == id);
            if p != q {
                if p < q {
                    assert(before.entries@[p].id@ != before.entries@[q].id@);
                } else {
                    assert(before.entries@[q].id@ != before.entries@[p].id@);
                }
            }
            if id == key {
                if p != i {
                    if p < i {
                        assert(before.entries@[p].id@ != before.entries@[i].id@);
                    } else {
                        assert(before.entries@[i].id@ != before.entries@[p].id@);
                    }
                }
            } else {
                assert(p != i);
            }
        }
        assert(before.has(key));
        assert(after.realm_models() =~= before.realm_models().insert(
            key,
            after.entries@[i].realm@,
        ));
        if after.entries@[i].realm.wf() {
            assert forall|a: int, b: int| 0 <= a < b < after.entries@.len() implies (
            #[trigger] after.entries@[a]).id@ != (#[trigger] after.entries@[b]).id@ by {
                assert(before.entries@[a].id@ != before.entries@[b].id@);
            }
            assert forall|a: int| 0 <= a < after.entries@.len() implies (
            #[trigger] after.entries@[a]).realm.wf() by {
                if a != i {
                    assert(before.entries@[a].realm.wf());
                }
            }
        }
    }
}

impl JsRuntimeAdapter for HostRuntime {
    type JsRealmAdapterType = HostRealm;

    open spec fn realms(&self) -> Map<Seq<char>, JsRealmModel> {
        self.realm_models()
    }

    open spec fn main_realm_id(&self) -> Seq<char> {
        self.main_id()
    }

    open spec fn inv(&self) -> bool {
        self.wf()
    }

    proof fn inv_has_main_realm(&self) {
        assert(self.entries@[0].id@ == self.main_id());
        assert(self.has(self.main_id()));
    }

    fn js_create_realm(&mut self, id: &str) -> (r: Result<&mut HostRealm, JsError>)
        ensures
            r is Err <==> old(self).realms().contains_key(id@),
    {
        let name = id.to_owned();
        if self.find(&name).is_some() {
            return Err(JsError::DuplicateRealm(name));
        }
        let ghost before = *self;
        let place = self.entries.len();
        self.entries.push(HostRealmEntry { id: name, realm: HostRealm::new() });
        let ghost grown = *self;
        proof {
            Self::lemma_realm_added(&before, &grown);
        }
        proof {
            Self::lemma_replacing(&grown, place as int);
            assert forall|made: JsRealmModel|
                #[trigger] before.realm_models().insert(
                    id@,
                    grown.entries@[place as int].realm@,
                ).insert(id@, made) == before.realm_models().insert(id@, made) by {
                assert(before.realm_models().insert(
                    id@,
                    grown.entries@[place as int].realm@,
                ).insert(id@, made) =~= before.realm_models().insert(id@, made));
            }
        }
        Ok(&mut self.entries[place].realm)
    }

    fn js_get_realm(&mut self, id: &str) -> (r: Option<&mut HostRealm>) {
        let name = id.to_owned();
        let ghost before = *self;
        match self.find(&name) {
            Some(i) => {
                proof {
                    Self::lemma_replacing(&before, i as int);
                }
                Some(&mut self.entries[i].realm)
            },
            None => None,
        }
    }

    fn js_get_main_realm(&mut self) -> (realm: &mut HostRealm) {
        let ghost before = *self;
        proof {
            before.inv_has_main_realm();
            assert(before.entries@[0].id@ == before.main_id());
            assert(before.place(before.main_id()) == 0) by {
                let p = before.place(before.main_id());
                if p != 0 {
                    assert(before.entries@[0].id@ != before.entries@[p].id@);
                }
            }
        }
        proof {
            Self::lemma_replacing(&before, 0);
        }
        &mut self.entries[0].realm
    }
}

} // verus!
