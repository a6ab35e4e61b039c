//! The promises of the host realm. A reaction runs when the promise is
//! settled, or at once where it is registered after that.

use vstd::prelude::*;
use crate::adapters::{settled_by, JsPromiseAdapter, JsPromiseState};
use crate::errors::JsError;
use crate::host_value::HostValue;

verus! {

/// A reaction of the host to the settling of a promise.
pub(crate) trait HostReaction {
    /// The reaction, called with `value`, may return `r`.
    spec fn yields(&self, value: &HostValue, r: Result<(), JsError>) -> bool;

    fn react(&self, value: &HostValue) -> (r: Result<(), JsError>)
        ensures
            self.yields(value, r),
    ;
}

/// A closure that may be called with any value.
pub(crate) struct HostReactionClosure<F: Fn(&HostValue) -> Result<(), JsError>> {
    function: F,
}

impl<F: Fn(&HostValue) -> Result<(), JsError>> HostReactionClosure<F> {
    #[verifier::type_invariant]
    spec fn total(self) -> bool {
        forall|value: &HostValue| call_requires(self.function, (value,))
    }

    /// The closure that is kept.
    pub(crate) closed spec fn inner(self) -> F {
        self.function
    }

    pub(crate) fn new(function: F) -> (closure: Self)
        requires
            forall|value: &HostValue| call_requires(function, (value,)),
        ensures
            closure.inner() == function,
    {
        HostReactionClosure { function }
    }
}

impl<F: Fn(&HostValue) -> Result<(), JsError>> HostReaction for HostReactionClosure<F> {
    /// What the closure may return.
    open spec fn yields(&self, value: &HostValue, r: Result<(), JsError>) -> bool {
        call_ensures(self.inner(), (value,), r)
    }

    fn react(&self, value: &HostValue) -> (r: Result<(), JsError>) {
        proof {
            use_type_invariant(self);
        }
        (self.function)(value)
    }
}

/// On which outcome a reaction runs.
#[derive(Clone, Copy, Debug, PartialEq, Eq, Structural)]
pub enum HostReactionKind {
    Then,
    Catch,
    Finally,
}

impl HostReactionKind {
    /// A `Then` reaction answers a resolution, a `Catch` reaction a
    /// rejection, and a `Finally` reaction either.
    pub open spec fn answers(self, resolved: bool) -> bool {
        match self {
            HostReactionKind::Then => resolved,
            HostReactionKind::Catch => !resolved,
            HostReactionKind::Finally => true,
        }
    }

    pub fn js_answers(self, resolved: bool) -> (b: bool)
        ensures
            b == self.answers(resolved),
    {
        match self {
            HostReactionKind::Then => resolved,
            HostReactionKind::Catch => !resolved,
            HostReactionKind::Finally => true,
        }
    }
}

/// A reaction that waits for its promise.
pub(crate) struct HostReactionSlot {
    pub(crate) kind: HostReactionKind,
    pub(crate) reaction: Box<dyn HostReaction>,
}

impl HostReactionSlot {
    pub(crate) fn new<F>(kind: HostReactionKind, function: F) -> (slot: Self) where
        F: Fn(&HostValue) -> Result<(), JsError> + 'static,

        requires
            forall|value: &HostValue| call_requires(function, (value,)),
        ensures
            slot.kind == kind,
            forall|value: &HostValue, r: Result<(), JsError>|
                #[trigger] slot.reaction.yields(value, r) <==> call_ensures(function, (value,), r),
    {
        let closure = HostReactionClosure::new(function);
        let ghost kept = closure;
        let slot = HostReactionSlot { kind, reaction: Box::new(closure) };
        proof {
            assert forall|value: &HostValue, r: Result<(), JsError>|
                #[trigger] slot.reaction.yields(value, r) <==> call_ensures(
                    function,
                    (value,),
                    r,
                ) by {
                assert(slot.reaction.yields(value, r) == kept.yields(value, r));
            }
        }
        slot
    }
}

enum HostSettlement {
    Pending,
    Resolved(HostValue),
    Rejected(HostValue),
}

/// A promise of the host realm.
pub struct HostPromise {
    settlement: HostSettlement,
    waiting: Vec<HostReactionSlot>,
}

impl HostPromise {
    /// A settled promise has run its reactions: none waits.
    pub closed spec fn wf(&self) -> bool {
        !(self.settlement is Pending) ==> self.waiting@.len() == 0
    }

    /// How many reactions wait for the promise to be settled.
    pub closed spec fn waiting(&self) -> nat {
        self.waiting@.len()
    }

    pub closed spec fn settled(&self) -> JsPromiseState {
        match self.settlement {
            HostSettlement::Pending => JsPromiseState::Pending,
            HostSettlement::Resolved(value) => JsPromiseState::Resolved(value@),
            HostSettlement::Rejected(value) => JsPromiseState::Rejected(value@),
        }
    }

    /// The kind of the reaction that waits in the place `i`.
    pub closed spec fn waiting_kind(&self, i: int) -> HostReactionKind {
        self.waiting@[i].kind
    }

    /// The reaction that waits in the place `i`, called with `value`, may
    /// return `out`.
    pub closed spec fn waiting_yields(
        &self,
        i: int,
        value: &HostValue,
        out: Result<(), JsError>,
    ) -> bool {
        self.waiting@[i].reaction.yields(value, out)
    }

    /// The value that the promise is settled with.
    pub closed spec fn held(&self) -> HostValue {
        match self.settlement {
            HostSettlement::Pending => HostValue::Undefined,
            HostSettlement::Resolved(value) => value,
            HostSettlement::Rejected(value) => value,
        }
    }

    /// Each reaction that waits here and answers the outcome was called
    /// with `value` and returned.
    pub open spec fn reactions_ran(&self, resolved: bool, value: &HostValue) -> bool {
        forall|i: int|
            0 <= i < self.waiting() && (#[trigger] self.waiting_kind(i)).answers(resolved)
                ==> exists|out: Result<(), JsError>| self.waiting_yields(i, value, out)
    }

    /// The reactions that wait here wait in `after` in the same places.
    pub open spec fn waiting_kept(&self, after: &HostPromise) -> bool {
        forall|i: int|
            0 <= i < self.waiting() ==> #[trigger] after.waiting_kind(i) == self.waiting_kind(i)
                && forall|value: &HostValue, out: Result<(), JsError>| #[trigger]
                    after.waiting_yields(i, value, out) == self.waiting_yields(i, value, out)
    }

    /// A pending promise without reactions.
    pub fn new() -> (promise: HostPromise)
        ensures
            promise.wf(),
            promise.settled() is Pending,
            promise.waiting() == 0,
    {
        HostPromise { settlement: HostSettlement::Pending, waiting: Vec::new() }
    }

    /// Whether the promise is settled.
    pub fn js_is_settled(&self) -> (b: bool)
        ensures
            b == !(self.settled() is Pending),
    {
        match self.settlement {
            HostSettlement::Pending => false,
            _ => true,
        }
    }

    /// Runs the waiting reactions that answer the outcome, each once and in
    /// the order of their registration, and lets all of them go.
    fn run_waiting(&mut self, resolved: bool, value: &HostValue)
        ensures
            final(self).settlement == old(self).settlement,
            final(self).waiting@.len() == 0,
            old(self).reactions_ran(resolved, value),
    {
        let mut i: usize = 0;
        while i < self.waiting.len()
            invariant
                self.settlement == old(self).settlement,
                self.waiting == old(self).waiting,
                0 <= i <= self.waiting@.len(),
                forall|j: int|
                    0 <= j < i && (#[trigger] self.waiting@[j]).kind.answers(resolved)
                        ==> exists|out: Result<(), JsError>|
                        self.waiting@[j].reaction.yields(value, out),
            decreases self.waiting@.len() - i,
        {
            if self.waiting[i].kind.js_answers(resolved) {
                let out = self.waiting[i].reaction.react(value);
                proof {
                    assert(self.waiting@[i as int].reaction.yields(value, out));
                }
            }
            i = i + 1;
        }
        proof {
            assert forall|j: int|
                0 <= j < old(self).waiting() && (#[trigger] old(self).waiting_kind(j)).answers(
                    resolved,
                ) implies exists|out: Result<(), JsError>|
                old(self).waiting_yields(j, value, out) by {
                assert(self.waiting@[j].kind.answers(resolved));
                let out = choose|out: Result<(), JsError>|
                    self.waiting@[j].reaction.yields(value, out);
                assert(old(self).waiting_yields(j, value, out));
            }
        }
        self.waiting = Vec::new();
    }

    fn settle(&mut self, resolved: bool, value: &HostValue) -> (r: Result<(), JsError>)
        requires
            old(self).wf(),
        ensures
            final(self).wf(),
            r is Ok <==> old(self).settled() is Pending,
            r is Ok ==> final(self).waiting() == 0 && final(self).settled() == (if resolved {
                JsPromiseState::Resolved(value@)
            } else {
                JsPromiseState::Rejected(value@)
            }),
            r is Err ==> r->Err_0 is InvalidState && final(self).settled() == old(self).settled()
                && final(self).waiting() == old(self).waiting() && old(self).waiting_kept(
                final(self),
            ) && final(self).held() == old(self).held(),
            r is Ok ==> old(self).reactions_ran(resolved, value) && final(self).held() == *value,
            settled_by(
                old(self).settled(),
                if resolved {
                    JsPromiseState::Resolved(value@)
                } else {
                    JsPromiseState::Rejected(value@)
                },
                final(self).settled(),
                r,
            ),
    {
        match self.settlement {
            HostSettlement::Pending => {
                if resolved {
                    self.settlement = HostSettlement::Resolved(value.clone());
                } else {
                    self.settlement = HostSettlement::Rejected(value.clone());
                }
                let ghost middle = *self;
                self.run_waiting(resolved, value);
                proof {
                    assert forall|i: int|
                        0 <= i < old(self).waiting() && (#[trigger] old(self).waiting_kind(
                            i,
                        )).answers(resolved) implies exists|out: Result<(), JsError>|
                        old(self).waiting_yields(i, value, out) by {
                        assert(middle.waiting_kind(i).answers(resolved));
                        let out = choose|out: Result<(), JsError>|
                            middle.waiting_yields(i, value, out);
                        assert(old(self).waiting_yields(i, value, out));
                    }
                }
                Ok(())
            },
            _ => Err(JsError::InvalidState),
        }
    }

    /// Takes one reaction: it waits while the promise is pending, and runs
    /// at once where the promise is settled and the reaction answers the
    /// outcome.
    fn register(&mut self, slot: HostReactionSlot)
        requires
            old(self).wf(),
        ensures
            final(self).wf(),
            final(self).settled() == old(self).settled(),
            final(self).waiting() == (if old(self).settled() is Pending {
                old(self).waiting() + 1
            } else {
                0
            }),
            final(self).held() == old(self).held(),
            old(self).settled() is Pending ==> old(self).waiting_kept(final(self)) && final(self).waiting_kind(old(self).waiting() as int) == slot.kind && forall|
                value: &HostValue,
                out: Result<(), JsError>,
            | #[trigger]
                final(self).waiting_yields(old(self).waiting() as int, value, out)
                    == slot.reaction.yields(value, out),
            !(old(self).settled() is Pending) && slot.kind.answers(
                old(self).settled() is Resolved,
            ) ==> exists|out: Result<(), JsError>|
                slot.reaction.yields(&old(self).held(), out),
    {
        match &self.settlement {
            HostSettlement::Pending => {
                self.waiting.push(slot);
            },
            HostSettlement::Resolved(value) => {
                if slot.kind.js_answers(true) {
                    let out = slot.reaction.react(value);
                    proof {
                        assert(slot.reaction.yields(&old(self).held(), out));
                    }
                }
            },
            HostSettlement::Rejected(value) => {
                if slot.kind.js_answers(false) {
                    let out = slot.reaction.react(value);
                    proof {
                        assert(slot.reaction.yields(&old(self).held(), out));
                    }
                }
            },
        }
    }
}

/// In `promise` the closure `function` waits in the place `i`, under `kind`.
pub open spec fn registered<F: Fn(&HostValue) -> Result<(), JsError>>(
    promise: &HostPromise,
    i: int,
    kind: HostReactionKind,
    function: F,
) -> bool {
    &&& 0 <= i < promise.waiting()
    &&& promise.waiting_kind(i) == kind
    &&& forall|value: &HostValue, out: Result<(), JsError>| #[trigger]
        promise.waiting_yields(i, value, out) <==> call_ensures(function, (value,), out)
}

/// The closure `function` was called with `value` and returned.
pub open spec fn called<F: Fn(&HostValue) -> Result<(), JsError>>(
    function: F,
    value: HostValue,
) -> bool {
    exists|out: Result<(), JsError>| call_ensures(function, (&value,), out)
}

impl JsPromiseAdapter for HostPromise {
    type JsValueAdapterType = HostValue;

    type JsRealmAdapterType = crate::host_realm::HostRealm;

    open spec fn state(&self) -> JsPromiseState {
        self.settled()
    }

    open spec fn inv(&self) -> bool {
        self.wf()
    }

    /// Settling runs the reactions that wait: each one that answers a
    /// resolution was called with `resolution`.
    fn js_promise_resolve(
        &mut self,
        context: &crate::host_realm::HostRealm,
        resolution: &HostValue,
    ) -> (r: Result<(), JsError>)
        ensures
            r is Ok <==> old(self).state() is Pending,
            r is Ok ==> final(self).waiting() == 0 && old(self).reactions_ran(true, resolution)
                && final(self).held() == *resolution,
            r is Err ==> old(self).waiting_kept(final(self)) && final(self).waiting() == old(self).waiting() && final(self).held() == old(self).held(),
    {
        self.settle(true, resolution)
    }

    /// Settling runs the reactions that wait: each one that answers a
    /// rejection was called with `rejection`.
    fn js_promise_reject(
        &mut self,
        context: &crate::host_realm::HostRealm,
        rejection: &HostValue,
    ) -> (r: Result<(), JsError>)
        ensures
            r is Ok <==> old(self).state() is Pending,
            r is Ok ==> final(self).waiting() == 0 && old(self).reactions_ran(false, rejection)
                && final(self).held() == *rejection,
            r is Err ==> old(self).waiting_kept(final(self)) && final(self).waiting() == old(self).waiting() && final(self).held() == old(self).held(),
    {
        self.settle(false, rejection)
    }

    /// While the promise is pending the reactions given wait behind those
    /// that wait already, in the order then, catch, finally. Where it is
    /// settled, those that answer the outcome are called at once with the
    /// value that the promise holds.
    fn js_promise_add_reactions<F>(
        &mut self,
        context: &crate::host_realm::HostRealm,
        then: Option<F>,
        catch: Option<F>,
        finally: Option<F>,
    ) -> (r: Result<(), JsError>) where F: Fn(&HostValue) -> Result<(), JsError> + 'static
        ensures
            r is Ok,
            !(old(self).state() is Pending) ==> final(self).waiting() == 0,
            old(self).state() is Pending ==> final(self).waiting() == old(self).waiting() + (
            if then is Some {
                1nat
            } else {
                0nat
            }) + (if catch is Some {
                1nat
            } else {
                0nat
            }) + (if finally is Some {
                1nat
            } else {
                0nat
            }),
            final(self).held() == old(self).held(),
            old(self).state() is Pending ==> old(self).waiting_kept(final(self)),
            old(self).state() is Pending ==> (then matches Some(f) ==> registered(
                final(self),
                old(self).waiting() as int,
                HostReactionKind::Then,
                f,
            )),
            old(self).state() is Pending ==> (catch matches Some(f) ==> registered(
                final(self),
                old(self).waiting() + (if then is Some {
                    1int
                } else {
                    0int
                }),
                HostReactionKind::Catch,
                f,
            )),
            old(self).state() is Pending ==> (finally matches Some(f) ==> registered(
                final(self),
                old(self).waiting() + (if then is Some {
                    1int
                } else {
                    0int
                }) + (if catch is Some {
                    1int
                } else {
                    0int
                }),
                HostReactionKind::Finally,
                f,
            )),
            old(self).state() is Resolved ==> (then matches Some(f) ==> called(
                f,
                old(self).held(),
            )),
            old(self).state() is Rejected ==> (catch matches Some(f) ==> called(
                f,
                old(self).held(),
            )),
            !(old(self).state() is Pending) ==> (finally matches Some(f) ==> called(
                f,
                old(self).held(),
            )),
    {
        let ghost start = *self;
        match then {
            Some(function) => {
                self.register(HostReactionSlot::new(HostReactionKind::Then, function));
            },
            None => {},
        }
        match catch {
            Some(function) => {
                self.register(HostReactionSlot::new(HostReactionKind::Catch, function));
            },
            None => {},
        }
        match finally {
            Some(function) => {
                self.register(HostReactionSlot::new(HostReactionKind::Finally, function));
            },
            None => {},
        }
        Ok(())
    }

    fn js_promise_get_value(&self) -> (value: HostValue) {
        match &self.settlement {
            HostSettlement::Resolved(value) => value.clone(),
            HostSettlement::Rejected(value) => value.clone(),
            HostSettlement::Pending => HostValue::Undefined,
        }
    }
}

} // verus!
