//! Host callbacks as the host realm keeps them: closures of any type behind
//! one interface.

use vstd::prelude::*;
use crate::errors::JsError;
use crate::host_value::{HostContext, HostValue};

verus! {

/// A function of the host that scripts can call.
pub(crate) trait HostFunction {
    /// The function, called with `this` and `args`, may return `r`.
    spec fn yields(
        &self,
        context: &HostContext,
        this: &HostValue,
        args: &[HostValue],
        r: Result<HostValue, JsError>,
    ) -> bool;

    fn call(&self, context: &HostContext, this: &HostValue, args: &[HostValue]) -> (r: Result<
        HostValue,
        JsError,
    >)
        ensures
            self.yields(context, this, args, r),
    ;
}

/// A closure that may be called with any arguments.
pub(crate) struct HostClosure<F: Fn(&HostContext, &HostValue, &[HostValue]) -> Result<HostValue, JsError>> {
    function: F,
}

impl<F: Fn(&HostContext, &HostValue, &[HostValue]) -> Result<HostValue, JsError>> HostClosure<F> {
    #[verifier::type_invariant]
    spec fn total(self) -> bool {
        forall|context: &HostContext, this: &HostValue, args: &[HostValue]|
            call_requires(self.function, (context, this, args))
    }

    /// The closure that is kept.
    pub(crate) closed spec fn inner(self) -> F {
        self.function
    }

    pub(crate) fn new(function: F) -> (closure: Self)
        requires
            forall|context: &HostContext, this: &HostValue, args: &[HostValue]|
                call_requires(function, (context, this, args)),
        ensures
            closure.inner() == function,
    {
        HostClosure { function }
    }
}

impl<F: Fn(&HostContext, &HostValue, &[HostValue]) -> Result<HostValue, JsError>> HostFunction for HostClosure<
    F,
> {
    /// What the closure may return.
    open spec fn yields(
        &self,
        context: &HostContext,
        this: &HostValue,
        args: &[HostValue],
        r: Result<HostValue, JsError>,
    ) -> bool {
        call_ensures(self.inner(), (context, this, args), r)
    }

    fn call(&self, context: &HostContext, this: &HostValue, args: &[HostValue]) -> (r: Result<
        HostValue,
        JsError,
    >) {
        proof {
            use_type_invariant(self);
        }
        (self.function)(context, this, args)
    }
}

/// A place in a realm's table of functions.
pub(crate) struct HostFunctionSlot {
    pub(crate) function: Box<dyn HostFunction>,
}

impl HostFunctionSlot {
    /// Puts `function` behind the interface: the slot returns what the
    /// function returns, and nothing else.
    pub(crate) fn new<F>(function: F) -> (slot: Self) where
        F: Fn(&HostContext, &HostValue, &[HostValue]) -> Result<HostValue, JsError> + 'static,

        requires
            forall|context: &HostContext, this: &HostValue, args: &[HostValue]|
                call_requires(function, (context, this, args)),
        ensures
            forall|
                context: &HostContext,
                this: &HostValue,
                args: &[HostValue],
                r: Result<HostValue, JsError>,
            |
                #[trigger] slot.function.yields(context, this, args, r) <==> call_ensures(function, (context, this, args), r),
    {
        let closure = HostClosure::new(function);
        let ghost kept = closure;
        let slot = HostFunctionSlot { function: Box::new(closure) };
        proof {
            assert forall|
                context: &HostContext,
                this: &HostValue,
                args: &[HostValue],
                r: Result<HostValue, JsError>,
            |
                #[trigger] slot.function.yields(context, this, args, r) <==> call_ensures(function, (context, this, args), r) by {
                assert(slot.function.yields(context, this, args, r) == kept.yields(context, this, args, r));
            }
        }
        slot
    }
}

} // verus!
