//! Recording the actions that a state takes, so that they can be replayed.

use crate::stef::share::Share;
use crate::stef::state::State;
use std::marker::PhantomData;
use std::path::PathBuf;
use std::sync::Arc;
use vstd::std_specs::convert::FromSpecImpl;
use vstd::prelude::*;

verus! {

/// `anyhow::Error`, the error that a recorder gives when its record cannot
/// be read. It is handed on as it is.
#[verifier::external_type_specification]
#[verifier::external_body]
pub struct ExAnyhowError(anyhow::Error);

/// `std::path::PathBuf`, the name of a file. It is handed on as it is.
#[verifier::external_type_specification]
#[verifier::external_body]
pub struct ExPathBuf(PathBuf);

/// Starting from `before`, the state may take `actions` in turn, answer
/// them with `effects`, and be `after` in the end.
pub open spec fn replays<S: State>(
    before: S,
    actions: Seq<S::Action>,
    effects: Seq<S::Effect>,
    after: S,
) -> bool
    decreases actions.len(),
{
    if actions.len() == 0 {
        effects.len() == 0 && after == before
    } else {
        &&& effects.len() == actions.len()
        &&& exists|mid: S|
            replays(before, actions.drop_last(), effects.drop_last(), mid) && mid.steps(
                actions.last(),
                effects.last(),
                &after,
            )
    }
}

/// Starting from `before`, the state may answer some list of actions with
/// `effects` and be `after` in the end.
pub open spec fn replayed<S: State>(before: S, effects: Seq<S::Effect>, after: S) -> bool {
    exists|actions: Seq<S::Action>| replays(before, actions, effects, after)
}

/// Applies `actions` to `state` in turn and returns the effects.
pub fn play<S: State>(actions: Vec<S::Action>, state: &mut S) -> (effects: Vec<S::Effect>)
    ensures
        replays(*old(state), actions@, effects@, *final(state)),
{
    let ghost all = actions@;
    let mut actions = actions;
    let mut effects: Vec<S::Effect> = Vec::new();
    let mut pending: Vec<S::Action> = Vec::new();
    // Turn the list round, so that the actions can be taken off its end in
    // their own order.
    while actions.len() > 0
        invariant
            actions@ + pending@.reverse() == all,
        decreases actions.len(),
    {
        let ghost held = pending@;
        let ghost left = actions@;
        let action = actions.pop().unwrap();
        pending.push(action);
        proof {
            assert(pending@.reverse() =~= seq![action] + held.reverse());
            assert(actions@ + pending@.reverse() =~= left + held.reverse());
        }
    }
    proof {
        assert(pending@.reverse() =~= all);
        assert(all.take(0) =~= Seq::<S::Action>::empty());
    }
    while pending.len() > 0
        invariant
            pending@.len() + effects@.len() == all.len(),
            pending@.reverse() == all.skip(effects@.len() as int),
            replays(*old(state), all.take(effects@.len() as int), effects@, *state),
        decreases pending.len(),
    {
        let ghost done = effects@;
        let ghost n = effects@.len() as int;
        let ghost mid = *state;
        let ghost left = pending@;
        let action = pending.pop().unwrap();
        proof {
            assert(left.reverse()[0] == action);
            assert(action == all[n]);
            assert(left.reverse() =~= seq![action] + pending@.reverse());
            assert(pending@.reverse() =~= left.reverse().skip(1));
            assert(all.skip(n).skip(1) =~= all.skip(n + 1));
        }
        let effect = state.transition(action);
        effects.push(effect);
        proof {
            assert(all.take(n + 1).drop_last() =~= all.take(n));
            assert(effects@.drop_last() =~= done);
            assert(mid.steps(all.take(n + 1).last(), effects@.last(), &*state));
        }
    }
    proof {
        assert(all.take(all.len() as int) =~= all);
    }
    effects
}

/// What playing a record back comes to, given what reading the record gave:
/// if it gave `actions`, the state takes them in turn and `r` holds the
/// effects; if it gave an error, `r` is that error and the state is left
/// alone.
pub open spec fn played_back<S: State>(
    found: Result<Vec<S::Action>, anyhow::Error>,
    before: S,
    r: Result<Vec<S::Effect>, anyhow::Error>,
    after: S,
) -> bool {
    match found {
        Ok(actions) => match r {
            Ok(effects) => replays(before, actions@, effects@, after),
            Err(_) => false,
        },
        Err(e) => r == Err::<Vec<S::Effect>, anyhow::Error>(e) && after == before,
    }
}

/// Plays back what reading a record gave: applies the actions to `state` in
/// turn and returns the effects, or hands on the error and leaves `state`
/// alone.
pub fn replay<S: State>(found: Result<Vec<S::Action>, anyhow::Error>, state: &mut S) -> (r: Result<
    Vec<S::Effect>,
    anyhow::Error,
>)
    ensures
        played_back(found, *old(state), r, *final(state)),
{
    match found {
        Ok(actions) => {
            let effects = play(actions, state);
            Ok(effects)
        },
        Err(e) => Err(e),
    }
}

/// Something that keeps the actions of a state `S`, in order.
pub trait ActionRecorder<S: State> {
    /// Gets the record ready to take actions.
    fn initialize(&self);

    /// Adds `action` to the record.
    fn record_action(&self, action: &S::Action);

    /// The recorded actions, oldest first.
    fn retrieve_actions(&self) -> Result<Vec<S::Action>, anyhow::Error>;

    /// Reads the record and plays it back: applies the recorded actions to
    /// `state` in turn and returns the effects. If the record cannot be
    /// read, the error of the reading is handed on and `state` is left
    /// alone.
    fn playback_actions(&self, state: &mut S) -> (r: Result<Vec<S::Effect>, anyhow::Error>)
        ensures
            exists|found: Result<Vec<S::Action>, anyhow::Error>|
                call_ensures(Self::retrieve_actions, (self,), found) && played_back(
                    found,
                    *old(state),
                    r,
                    *final(state),
                ),
            match r {
                Ok(effects) => replayed(*old(state), effects@, *final(state)),
                Err(_) => *final(state) == *old(state),
            },
    {
        let found = self.retrieve_actions();
        let ghost read = found;
        let r = replay(found, state);
        proof {
            assert(call_ensures(Self::retrieve_actions, (self,), read) && played_back(
                read,
                *old(state),
                r,
                *state,
            ));
            match read {
                Ok(actions) => {
                    assert(replayed(*old(state), r->Ok_0@, *state));
                },
                Err(_) => {},
            }
        }
        r
    }
}

/// A record kept in memory. Its clones write to the same record.
#[verifier::reject_recursive_types(S)]
pub struct MemoryCassette<S: State> {
    tape: Share<Vec<S::Action>>,
}

impl<S: State> MemoryCassette<S> {
    /// The handle to the record.
    pub closed spec fn record(&self) -> Share<Vec<S::Action>> {
        self.tape
    }

    /// A record of its own, which holds no actions to begin with.
    pub fn new() -> (r: Self)
        ensures
            r.record().initial()@ == Seq::<S::Action>::empty(),
    {
        MemoryCassette { tape: Share::new(Vec::new()) }
    }
}

impl<S: State> Clone for MemoryCassette<S> {
    /// Another handle to the same record.
    fn clone(&self) -> (r: Self) {
        MemoryCassette { tape: self.tape.clone() }
    }
}

impl<S: State> ActionRecorder<S> for MemoryCassette<S> where S::Action: Clone {
    fn initialize(&self) {
    }

    fn record_action(&self, action: &S::Action) {
        self.tape.push(action.clone());
    }

    /// A copy of the record as it is now: what reading the shared record
    /// gives. Reading a record in memory does not fail.
    fn retrieve_actions(&self) -> (r: Result<Vec<S::Action>, anyhow::Error>)
        ensures
            match r {
                Ok(list) => self.record().read_as(list),
                Err(_) => false,
            },
    {
        Ok(self.tape.get())
    }
}

/// Names the file in which the actions of a state `S` are kept, one after
/// the other.
#[verifier::reject_recursive_types(S)]
pub struct FileActionRecorder<S> {
    path: PathBuf,
    state: PhantomData<S>,
}

impl<S> FileActionRecorder<S> {
    /// The file that holds the record.
    pub closed spec fn file(&self) -> PathBuf {
        self.path
    }

    /// The recorder that keeps its record in the file `path`.
    pub closed spec fn naming(path: PathBuf) -> Self {
        FileActionRecorder { path, state: PhantomData }
    }

    /// The file that holds the record.
    pub fn path(&self) -> (r: &PathBuf)
        ensures
            *r == self.file(),
    {
        &self.path
    }
}

impl<S> From<PathBuf> for FileActionRecorder<S> {
    fn from(path: PathBuf) -> (r: Self) {
        FileActionRecorder { path, state: PhantomData }
    }
}

impl<S> FromSpecImpl<PathBuf> for FileActionRecorder<S> {
    open spec fn obeys_from_spec() -> bool {
        true
    }

    open spec fn from_spec(path: PathBuf) -> Self {
        Self::naming(path)
    }
}

/// Hands every action to a recorder before the wrapped state takes it.
#[verifier::reject_recursive_types(S)]
#[verifier::reject_recursive_types(R)]
pub struct RecordActions<S, R = FileActionRecorder<S>> {
    state: S,
    recorder: Option<Arc<R>>,
}

impl<S: State, R: ActionRecorder<S>> RecordActions<S, R> {
    /// The wrapped state.
    pub closed spec fn inner(&self) -> S {
        self.state
    }

    /// Whether actions are recorded.
    pub closed spec fn records(&self) -> bool {
        self.recorder is Some
    }

    /// Wraps `state`. With a recorder, the record is made ready and every
    /// action will be added to it; without one, nothing is recorded.
    pub fn new(recorder: Option<impl Into<R>>, state: S) -> (r: Self)
        ensures
            r.inner() == state,
            r.records() == recorder.is_some(),
    {
        match recorder {
            Some(recorder) => {
                let recorder: R = recorder.into();
                recorder.initialize();
                RecordActions { state, recorder: Some(Arc::new(recorder)) }
            },
            None => RecordActions { state, recorder: None },
        }
    }

    /// The actions that `recorder` holds, oldest first: whatever the
    /// recorder made of `recorder` answers.
    pub fn retrieve_actions(recorder: impl Into<R>) -> (r: Result<Vec<S::Action>, anyhow::Error>)
        ensures
            exists|made: R| call_ensures(R::retrieve_actions, (&made,), r),
    {
        let made: R = recorder.into();
        let r = made.retrieve_actions();
        assert(call_ensures(R::retrieve_actions, (&made,), r));
        r
    }

    /// The wrapped state.
    pub fn state(&self) -> (r: &S)
        ensures
            *r == self.inner(),
    {
        &self.state
    }
}

impl<S: State, R: ActionRecorder<S>> std::ops::Deref for RecordActions<S, R> {
    type Target = S;

    /// The wrapped state.
    fn deref(&self) -> (r: &S)
        ensures
            *r == self.inner(),
    {
        &self.state
    }
}

impl<S: State, R: ActionRecorder<S>> State for RecordActions<S, R> {
    type Action = S::Action;

    type Effect = S::Effect;

    /// The wrapped state takes the step; whether actions are recorded does
    /// not change.
    open spec fn steps(&self, action: S::Action, effect: S::Effect, after: &Self) -> bool {
        self.inner().steps(action, effect, &after.inner()) && after.records() == self.records()
    }

    fn transition(&mut self, action: S::Action) -> (effect: S::Effect) {
        match &self.recorder {
            Some(recorder) => {
                recorder.record_action(&action);
            },
            None => {},
        }
        self.state.transition(action)
    }
}

} // verus!
