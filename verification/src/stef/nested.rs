//! A part of a larger state, seen as a state of its own.

use crate::stef::share::Share;
use crate::stef::state::{State, Total};
use vstd::prelude::*;

verus! {

/// Turns the actions of a child state into actions of its parent, and the
/// effects of the parent back into effects of the child.
#[verifier::reject_recursive_types(Parent)]
#[verifier::reject_recursive_types(Child)]
#[verifier::reject_recursive_types(W)]
#[verifier::reject_recursive_types(U)]
pub struct Transformer<
    Parent: State,
    Child: State,
    W: Fn(Child::Action) -> Parent::Action,
    U: Fn(Parent::Effect) -> Child::Effect,
> {
    wrap_action: Total<Child::Action, Parent::Action, W>,
    unwrap_effect: Total<Parent::Effect, Child::Effect, U>,
}

impl<
    Parent: State,
    Child: State,
    W: Fn(Child::Action) -> Parent::Action,
    U: Fn(Parent::Effect) -> Child::Effect,
> Transformer<Parent, Child, W, U> {
    /// The function that turns a child's action into the parent's.
    pub closed spec fn wrap(&self) -> W {
        self.wrap_action.function()
    }

    /// The function that turns a parent's effect into the child's.
    pub closed spec fn unwrap(&self) -> U {
        self.unwrap_effect.function()
    }

    /// A transformer made of the two functions. Each must accept every
    /// argument.
    pub fn new(wrap_action: W, unwrap_effect: U) -> (r: Self)
        requires
            forall|action: Child::Action| #[trigger] call_requires(wrap_action, (action,)),
            forall|effect: Parent::Effect| #[trigger] call_requires(unwrap_effect, (effect,)),
        ensures
            r.wrap() == wrap_action,
            r.unwrap() == unwrap_effect,
    {
        Transformer {
            wrap_action: Total::new(wrap_action),
            unwrap_effect: Total::new(unwrap_effect),
        }
    }
}

/// A child state that lives inside a shared parent. Every action on the
/// child goes through the parent: it is wrapped, the parent takes it, and the
/// parent's effect is unwrapped.
#[verifier::reject_recursive_types(Parent)]
#[verifier::reject_recursive_types(Child)]
#[verifier::reject_recursive_types(W)]
#[verifier::reject_recursive_types(U)]
pub struct Nested<
    Parent: State,
    Child: State,
    W: Fn(Child::Action) -> Parent::Action,
    U: Fn(Parent::Effect) -> Child::Effect,
> {
    child: Share<Child>,
    parent: Share<Parent>,
    xf: Transformer<Parent, Child, W, U>,
}

impl<
    Parent: State,
    Child: State,
    W: Fn(Child::Action) -> Parent::Action,
    U: Fn(Parent::Effect) -> Child::Effect,
> Nested<Parent, Child, W, U> {
    /// The handle to the child.
    pub closed spec fn child_handle(&self) -> Share<Child> {
        self.child
    }

    /// The handle to the parent.
    pub closed spec fn parent_handle(&self) -> Share<Parent> {
        self.parent
    }

    /// The transformer between child and parent.
    pub closed spec fn transformer(&self) -> Transformer<Parent, Child, W, U> {
        self.xf
    }

    /// The child `child` of the parent `parent`, with `xf` to go between
    /// them.
    pub fn new(child: Share<Child>, parent: Share<Parent>, xf: Transformer<Parent, Child, W, U>) -> (r:
        Self)
        ensures
            r.child_handle() == child,
            r.parent_handle() == parent,
            r.transformer() == xf,
    {
        Nested { child, parent, xf }
    }

    /// The handle to the child.
    pub fn child(&self) -> (r: &Share<Child>)
        ensures
            *r == self.child_handle(),
    {
        &self.child
    }
}

impl<
    Parent: State,
    Child: State,
    W: Fn(Child::Action) -> Parent::Action,
    U: Fn(Parent::Effect) -> Child::Effect,
> std::ops::Deref for Nested<Parent, Child, W, U> {
    type Target = Share<Child>;

    /// The handle to the child.
    fn deref(&self) -> (r: &Share<Child>)
        ensures
            *r == self.child_handle(),
    {
        &self.child
    }
}

impl<
    Parent: State,
    Child: State,
    W: Fn(Child::Action) -> Parent::Action,
    U: Fn(Parent::Effect) -> Child::Effect,
> State for Nested<Parent, Child, W, U> {
    type Action = Child::Action;

    type Effect = Child::Effect;

    /// The parent takes the wrapped action, and its effect is unwrapped. The
    /// handles and the transformer stay as they are.
    open spec fn steps(&self, action: Child::Action, effect: Child::Effect, after: &Self) -> bool {
        &&& *after == *self
        &&& exists|wrapped: Parent::Action, made: Parent::Effect|
            {
                &&& call_ensures(self.transformer().wrap(), (action,), wrapped)
                &&& self.parent_handle().steps(wrapped, made, &self.parent_handle())
                &&& call_ensures(self.transformer().unwrap(), (made,), effect)
            }
    }

    fn transition(&mut self, action: Child::Action) -> (effect: Child::Effect) {
        let wrapped = self.xf.wrap_action.call(action);
        let made = self.parent.transition(wrapped);
        let effect = self.xf.unwrap_effect.call(made);
        proof {
            assert(call_ensures(self.transformer().wrap(), (action,), wrapped)
                && self.parent_handle().steps(wrapped, made, &self.parent_handle())
                && call_ensures(self.transformer().unwrap(), (made,), effect));
        }
        effect
    }
}

} // verus!
