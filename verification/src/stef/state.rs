//! What a state machine is.

use std::marker::PhantomData;
use vstd::prelude::*;

verus! {

/// A state that changes by actions, and answers each action with an effect.
///
/// `steps` says which answers are possible. A state type written in verified
/// code defines it next to `transition`; one written elsewhere inherits the
/// default, of which nothing is known.
pub trait State: Sized {
    /// What can be done to the state.
    type Action;

    /// What the state answers.
    type Effect;

    /// Whether the state may answer `action` with `effect` and be `after`
    /// afterwards.
    open spec fn steps(&self, action: Self::Action, effect: Self::Effect, after: &Self) -> bool {
        arbitrary::<spec_fn(Self, Self::Action, Self::Effect, Self) -> bool>()(
            *self,
            action,
            effect,
            *after,
        )
    }

    /// Applies `action` and returns its effect.
    fn transition(&mut self, action: Self::Action) -> (effect: Self::Effect)
        ensures
            old(self).steps(action, effect, final(self)),
    ;
}

/// The state that holds nothing: it takes the empty action and answers with
/// the empty effect.
impl State for () {
    type Action = ();

    type Effect = ();

    open spec fn steps(&self, action: (), effect: (), after: &()) -> bool {
        true
    }

    fn transition(&mut self, action: ()) -> (effect: ()) {
    }
}

/// A function that can be called on every argument.
#[verifier::reject_recursive_types(A)]
#[verifier::reject_recursive_types(B)]
#[verifier::reject_recursive_types(F)]
pub struct Total<A, B, F: Fn(A) -> B> {
    f: F,
    _phantom: PhantomData<(A, B)>,
}

impl<A, B, F: Fn(A) -> B> Total<A, B, F> {
    #[verifier::type_invariant]
    spec fn takes_any(self) -> bool {
        forall|a: A| #[trigger] call_requires(self.f, (a,))
    }

    /// The function itself.
    pub closed spec fn function(&self) -> F {
        self.f
    }

    /// Wraps `f`, which must accept every argument.
    pub fn new(f: F) -> (r: Self)
        requires
            forall|a: A| #[trigger] call_requires(f, (a,)),
        ensures
            r.function() == f,
    {
        Total { f, _phantom: PhantomData }
    }

    /// Calls the function on `a`.
    pub fn call(&self, a: A) -> (b: B)
        ensures
            call_ensures(self.function(), (a,), b),
    {
        proof {
            use_type_invariant(self);
        }
        (self.f)(a)
    }
}

} // verus!
