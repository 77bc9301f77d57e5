//! Wrappers that add behaviour to a [`State`].

use crate::stef::state::{State, Total};
use std::collections::VecDeque;
use vstd::prelude::*;

verus! {

/// Keeps every effect that the wrapped state produces, in order, instead of
/// handing it out. The wrapper's own effect is `()`.
pub struct StoreEffects<S: State> {
    state: S,
    effects: VecDeque<S::Effect>,
}

/// An action on a stack of actions.
pub enum Act<Ax> {
    Push(Ax),
    Pop,
}

impl<S: State> StoreEffects<S> {
    /// The wrapped state.
    pub closed spec fn inner(&self) -> S {
        self.state
    }

    /// The effects that are kept, oldest first.
    pub closed spec fn stored(&self) -> Seq<S::Effect> {
        self.effects@
    }

    /// Wraps `state`, with no effects kept yet. `capacity` is a hint and
    /// changes nothing.
    pub fn new(state: S, capacity: usize) -> (r: Self)
        ensures
            r.inner() == state,
            r.stored() == Seq::<S::Effect>::empty(),
    {
        StoreEffects { state, effects: VecDeque::new() }
    }

    /// The wrapped state.
    pub fn state(&self) -> (r: &S)
        ensures
            *r == self.inner(),
    {
        &self.state
    }

    /// The effects that are kept, oldest first.
    pub fn effects(&self) -> (r: &VecDeque<S::Effect>)
        ensures
            r@ == self.stored(),
    {
        &self.effects
    }

    /// Hands out the effects that are kept, oldest first, and keeps none.
    /// The wrapped state stays as it is.
    pub fn drain_effects(&mut self) -> (r: Vec<S::Effect>)
        ensures
            r@ == old(self).stored(),
            final(self).stored() == Seq::<S::Effect>::empty(),
            final(self).inner() == old(self).inner(),
    {
        let mut out: Vec<S::Effect> = Vec::new();
        let ghost all = self.effects@;
        loop
            invariant
                self.state == old(self).state,
                all == old(self).effects@,
                out@ + self.effects@ == all,
            ensures
                out@ == all,
                self.effects@ == Seq::<S::Effect>::empty(),
            decreases self.effects@.len(),
        {
            let ghost held = out@;
            let ghost left = self.effects@;
            match self.effects.pop_front() {
                Some(effect) => {
                    out.push(effect);
                    proof {
                        assert(out@ + self.effects@ =~= held + left);
                    }
                },
                None => {
                    proof {
                        assert(out@ =~= all);
                        assert(self.effects@ =~= Seq::<S::Effect>::empty());
                    }
                    break ;
                },
            }
        }
        out
    }
}

impl<S: State> std::ops::Deref for StoreEffects<S> {
    type Target = S;

    /// The wrapped state.
    fn deref(&self) -> (r: &S)
        ensures
            *r == self.inner(),
    {
        &self.state
    }
}

impl<S: State> State for StoreEffects<S> {
    type Action = S::Action;

    type Effect = ();

    /// The wrapped state takes the step, and its effect is kept as the
    /// newest.
    open spec fn steps(&self, action: S::Action, effect: (), after: &Self) -> bool {
        exists|kept: S::Effect|
            self.inner().steps(action, kept, &after.inner()) && after.stored()
                == self.stored().push(kept)
    }

    fn transition(&mut self, action: S::Action) -> (effect: ()) {
        let kept = self.state.transition(action);
        self.effects.push_back(kept);
        proof {
            assert(old(self).inner().steps(action, kept, &self.inner()) && self.stored()
                == old(self).stored().push(kept));
        }
    }
}

/// Runs a function on every effect that the wrapped state produces. The
/// wrapper's own effect is what the function returns.
#[verifier::reject_recursive_types(S)]
#[verifier::reject_recursive_types(Ret)]
#[verifier::reject_recursive_types(Runner)]
pub struct RunEffects<S: State, Ret, Runner: Fn(S::Effect) -> Ret> {
    state: S,
    runner: Total<S::Effect, Ret, Runner>,
}

impl<S: State, Ret, Runner: Fn(S::Effect) -> Ret> RunEffects<S, Ret, Runner> {
    /// The wrapped state.
    pub closed spec fn inner(&self) -> S {
        self.state
    }

    /// The function that is run on each effect.
    pub closed spec fn runner(&self) -> Runner {
        self.runner.function()
    }

    /// Wraps `state`, with `runner` to run on its effects. The runner must
    /// accept every effect.
    pub fn new(state: S, runner: Runner) -> (r: Self)
        requires
            forall|effect: S::Effect| #[trigger] call_requires(runner, (effect,)),
        ensures
            r.inner() == state,
            r.runner() == runner,
    {
        RunEffects { state, runner: Total::new(runner) }
    }

    /// The wrapped state.
    pub fn state(&self) -> (r: &S)
        ensures
            *r == self.inner(),
    {
        &self.state
    }
}

impl<S: State + Default, Ret, Runner: Fn(S::Effect) -> Ret> RunEffects<S, Ret, Runner> {
    /// Wraps the default state.
    pub fn initial(runner: Runner) -> (r: Self)
        requires
            forall|effect: S::Effect| #[trigger] call_requires(runner, (effect,)),
        ensures
            call_ensures(S::default, (), r.inner()),
            r.runner() == runner,
    {
        RunEffects { state: S::default(), runner: Total::new(runner) }
    }
}

impl<S: State, Ret, Runner: Fn(S::Effect) -> Ret> std::ops::Deref for RunEffects<S, Ret, Runner> {
    type Target = S;

    /// The wrapped state.
    fn deref(&self) -> (r: &S)
        ensures
            *r == self.inner(),
    {
        &self.state
    }
}

impl<S: State, Ret, Runner: Fn(S::Effect) -> Ret> State for RunEffects<S, Ret, Runner> {
    type Action = S::Action;

    type Effect = Ret;

    /// The wrapped state takes the step, and the runner turns its effect
    /// into the wrapper's.
    open spec fn steps(&self, action: S::Action, effect: Ret, after: &Self) -> bool {
        &&& after.runner() == self.runner()
        &&& exists|made: S::Effect|
            self.inner().steps(action, made, &after.inner()) && call_ensures(
                self.runner(),
                (made,),
                effect,
            )
    }

    fn transition(&mut self, action: S::Action) -> (effect: Ret) {
        let made = self.state.transition(action);
        let effect = self.runner.call(made);
        proof {
            assert(old(self).inner().steps(action, made, &self.inner()) && call_ensures(
                old(self).runner(),
                (made,),
                effect,
            ));
        }
        effect
    }
}

} // verus!
