//! A value that several owners share and change in turn.

use crate::stef::state::State;
use std::sync::Arc;
use vstd::prelude::*;
use vstd::rwlock::RwLock;

verus! {

/// A handle to a value that is shared by all clones of the handle. Reading
/// and changing the value take a lock, so what one owner reads is whatever
/// the others left there.
///
/// The lock is not taken twice at once: whoever changes the value must not
/// read or change it again, through any handle, before the change is done.
#[verifier::reject_recursive_types(T)]
pub struct Share<T> {
    cell: Arc<RwLock<T, spec_fn(T) -> bool>>,
    first: Ghost<T>,
}

/// `Arc::clone`: another handle to the same allocation, which therefore
/// equals the first.
#[verifier::external_body]
fn arc_clone<T>(a: &Arc<T>) -> (r: Arc<T>)
    ensures
        r == *a,
{
    Arc::clone(a)
}

impl<T> Share<T> {
    /// The lock takes any value.
    #[verifier::type_invariant]
    spec fn takes_any(self) -> bool {
        forall|v: T| #[trigger] self.cell.inv(v)
    }

    /// The value that was shared to begin with. All clones of a handle
    /// agree on it.
    pub closed spec fn initial(&self) -> T {
        self.first@
    }

    /// Shares `value`: the new handle is to a value of its own, which is
    /// `value` to begin with.
    pub fn new(value: T) -> (r: Self)
        ensures
            r.initial() == value,
    {
        let first = Ghost(value);
        Share { cell: Arc::new(RwLock::new(value, Ghost(|v: T| true))), first }
    }

    /// Calls `f` on the shared value as it is now, and returns what `f`
    /// returns.
    pub fn read<R, F: FnOnce(&T) -> R>(&self, f: F) -> (r: R)
        requires
            forall|v: T| call_requires(f, (&v,)),
        ensures
            exists|v: T| call_ensures(f, (&v,), r),
    {
        let handle = self.cell.acquire_read();
        let r = f(handle.borrow());
        handle.release_read();
        r
    }
}

impl<T> Clone for Share<T> {
    /// Another handle to the same value.
    fn clone(&self) -> (r: Self)
        ensures
            r == *self,
    {
        proof {
            use_type_invariant(self);
        }
        Share { cell: arc_clone(&self.cell), first: self.first }
    }
}

impl<T: Clone> Share<T> {
    /// `got` is what reading the shared value gave at some time.
    pub open spec fn read_as(&self, got: T) -> bool {
        call_ensures(Share::<T>::get, (self,), got)
    }

    /// A copy of the shared value as it is now.
    pub fn get(&self) -> (r: T)
        ensures
            exists|v: T| cloned(v, r),
    {
        let handle = self.cell.acquire_read();
        let r = handle.borrow().clone();
        proof {
            assert(cloned(handle@, r));
        }
        handle.release_read();
        r
    }
}

impl<A> Share<Vec<A>> {
    /// Appends `item` to the shared list.
    pub fn push(&self, item: A) {
        proof {
            use_type_invariant(self);
        }
        let (mut list, handle) = self.cell.acquire_write();
        list.push(item);
        handle.release_write(list);
    }
}

impl<T: State> State for Share<T> {
    type Action = T::Action;

    type Effect = T::Effect;

    /// Some value of the shared state answered `action` with `effect`. The
    /// handle itself stays as it is.
    open spec fn steps(&self, action: T::Action, effect: T::Effect, after: &Self) -> bool {
        *after == *self && exists|before: T, then: T| before.steps(action, effect, &then)
    }

    fn transition(&mut self, action: T::Action) -> (effect: T::Effect) {
        proof {
            use_type_invariant(&*self);
        }
        let (mut state, handle) = self.cell.acquire_write();
        let ghost before = state;
        let effect = state.transition(action);
        proof {
            assert(before.steps(action, effect, &state));
        }
        handle.release_write(state);
        effect
    }
}

} // verus!
