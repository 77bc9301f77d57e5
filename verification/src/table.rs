//! The memo table of one traversal.

use crate::cause::{Cause, CauseView, Check, CheckView};
use crate::eval::{settled_in, Memo};
use vstd::laws_eq::obeys_concrete_eq;
use vstd::prelude::*;

verus! {

/// The causes visited by one traversal, each either marked or settled with
/// its check.
///
/// The settled causes are kept in the order in which they settled. A cause
/// settles only after the causes that explain it, so this order shows that
/// following explanations never leads round in a circle.
///
/// Causes are found by comparing: looking one up takes time in proportion
/// to the number of causes held.
pub struct TraversalMap<T> {
    marked: Vec<Cause<T>>,
    settled: Vec<(Cause<T>, Check<T>)>,
}

/// `k` stands in `keys` before place `i`.
pub open spec fn occurs_before<A>(keys: Seq<A>, k: A, i: int) -> bool {
    exists|p: int| 0 <= p < i && p < keys.len() && #[trigger] keys[p] == k
}

impl<T> View for TraversalMap<T> {
    type V = Memo<T>;

    closed spec fn view(&self) -> Memo<T> {
        Map::new(
            |k: CauseView<T>| self.settled_keys().contains(k) || self.marks().contains(k),
            |k: CauseView<T>|
                if self.settled_keys().contains(k) {
                    Some(self.settled_checks()[self.settled_keys().index_of(k)])
                } else {
                    None
                },
        )
    }
}

impl<T> TraversalMap<T> {
    /// The marked causes, in the order in which they were marked.
    pub closed spec fn marks(&self) -> Seq<CauseView<T>> {
        Seq::new(self.marked.len() as nat, |i: int| self.marked[i]@)
    }

    /// The settled causes, in the order in which they settled.
    pub closed spec fn settled_keys(&self) -> Seq<CauseView<T>> {
        Seq::new(self.settled.len() as nat, |i: int| self.settled[i].0@)
    }

    /// The place of a settled cause in the order of settling.
    pub open spec fn rank(&self, k: CauseView<T>) -> int {
        self.settled_keys().index_of(k)
    }

    /// The checks of the settled causes, in the order in which they settled.
    pub closed spec fn settled_checks(&self) -> Seq<CheckView<T>> {
        Seq::new(self.settled.len() as nat, |i: int| self.settled[i].1@)
    }

    /// No cause has settled twice, and the causes that explain a failed one
    /// settled before it.
    pub closed spec fn wf(&self) -> bool {
        &&& self.settled_keys().no_duplicates()
        &&& forall|i: int, j: int|
            0 <= i < self.settled_checks().len() && self.settled_checks()[i] is Fail && 0 <= j
                < self.settled_checks()[i]->Fail_0.len() ==> occurs_before(
                self.settled_keys(),
                #[trigger] self.settled_checks()[i]->Fail_0[j],
                i,
            )
    }

    /// Whether `k` has settled.
    pub open spec fn has_settled(&self, k: CauseView<T>) -> bool {
        settled_in(self@, k)
    }

    /// The table holds finitely many causes, and each settled one has its
    /// place in the order of settling.
    pub proof fn lemma_ranks(&self)
        requires
            self.wf(),
        ensures
            self@.dom().finite(),
            self.settled_keys().no_duplicates(),
            self.settled_keys().len() <= self@.dom().len(),
            forall|k: CauseView<T>|
                self.has_settled(k) <==> #[trigger] self.settled_keys().contains(k),
            forall|k: CauseView<T>| #[trigger]
                self.has_settled(k) ==> 0 <= self.rank(k) < self.settled_keys().len()
                    && self.settled_keys()[self.rank(k)] == k,
    {
        let keys = self.settled_keys();
        let marks = self.marks();
        assert(self@.dom() =~= keys.to_set().union(marks.to_set()));
        vstd::seq_lib::seq_to_set_is_finite(keys);
        vstd::seq_lib::seq_to_set_is_finite(marks);
        keys.unique_seq_to_set();
        vstd::set_lib::lemma_len_subset(keys.to_set(), self@.dom());
    }

    /// The causes that explain a failed cause settled before it.
    pub proof fn lemma_explained_earlier(&self, k: CauseView<T>, j: int)
        requires
            self.wf(),
            self.has_settled(k),
            self@[k]->0 is Fail,
            0 <= j < self@[k]->0->Fail_0.len(),
        ensures
            self.has_settled(self@[k]->0->Fail_0[j]),
            self.rank(self@[k]->0->Fail_0[j]) < self.rank(k),
    {
        self.lemma_ranks();
        let keys = self.settled_keys();
        let i = self.rank(k);
        let child = self.settled_checks()[i]->Fail_0[j];
        assert(occurs_before(keys, child, i));
        let p = choose|p: int| 0 <= p < i && p < keys.len() && #[trigger] keys[p] == child;
        assert(keys.contains(child));
        assert(keys[keys.index_of(child)] == child);
    }
}

impl<T: PartialEq> TraversalMap<T> {
    /// A table in which nothing has been visited.
    pub fn new() -> (r: Self)
        ensures
            r.wf(),
            r@ == Map::<CauseView<T>, Option<CheckView<T>>>::empty(),
    {
        let r = TraversalMap { marked: Vec::new(), settled: Vec::new() };
        assert(r@ =~= Map::<CauseView<T>, Option<CheckView<T>>>::empty());
        r
    }

    /// What the table holds for `k`: `None` if it has not been visited,
    /// `Some(None)` if it is marked, and its check if it has settled.
    pub fn lookup(&self, k: &Cause<T>) -> (r: Option<Option<&Check<T>>>)
        requires
            obeys_concrete_eq::<T>(),
            self.wf(),
        ensures
            match r {
                None => !self@.dom().contains(k@),
                Some(None) => self@.dom().contains(k@) && self@[k@] is None,
                Some(Some(check)) => self@.dom().contains(k@) && self@[k@] == Some(check@),
            },
    {
        let mut i: usize = 0;
        while i < self.settled.len()
            invariant
                obeys_concrete_eq::<T>(),
                self.wf(),
                i <= self.settled.len(),
                forall|j: int| 0 <= j < i ==> self.settled_keys()[j] != k@,
            decreases self.settled.len() - i,
        {
            if self.settled[i].0.eq(k) {
                proof {
                    assert(self.settled_keys()[i as int] == k@);
                    assert(self.settled_keys().contains(k@));
                    let at = self.settled_keys().index_of(k@);
                    assert(self.settled_keys()[at] == k@);
                    assert(at == i);
                }
                return Some(Some(&self.settled[i].1));
            }
            i = i + 1;
        }
        let mut i: usize = 0;
        while i < self.marked.len()
            invariant
                obeys_concrete_eq::<T>(),
                i <= self.marked.len(),
                !self.settled_keys().contains(k@),
                forall|j: int| 0 <= j < i ==> self.marks()[j] != k@,
            decreases self.marked.len() - i,
        {
            if self.marked[i].eq(k) {
                proof {
                    assert(self.marks()[i as int] == k@);
                }
                return Some(None);
            }
            i = i + 1;
        }
        None
    }

    /// Marks `k` as visited, with no check yet.
    pub fn mark(&mut self, k: Cause<T>)
        requires
            old(self).wf(),
            !old(self)@.dom().contains(k@),
        ensures
            final(self).wf(),
            final(self)@ == old(self)@.insert(k@, None),
    {
        let ghost key = k@;
        self.marked.push(k);
        proof {
            assert(self.settled == old(self).settled);
            assert(self.settled_keys() =~= old(self).settled_keys());
            assert(self.marks() =~= old(self).marks().push(key));
            assert forall|x: CauseView<T>| self.marks().contains(x) <==> (old(self).marks().contains(
                x,
            ) || x == key) by {
                if self.marks().contains(x) {
                    let i = self.marks().index_of(x);
                    assert(self.marks()[i] == x);
                    if i < old(self).marks().len() {
                        assert(old(self).marks()[i] == x);
                    }
                }
                if old(self).marks().contains(x) {
                    let i = old(self).marks().index_of(x);
                    assert(old(self).marks()[i] == x);
                    assert(self.marks()[i] == x);
                }
                assert(self.marks()[old(self).marks().len() as int] == key);
            }
            assert(self@ =~= old(self)@.insert(key, None));
            assert(self.settled_checks() =~= old(self).settled_checks());
        }
    }

    /// Settles `k` with `check`. The causes that `check` names as the
    /// explanation must have settled already.
    pub fn settle(&mut self, k: Cause<T>, check: Check<T>)
        requires
            old(self).wf(),
            !old(self).has_settled(k@),
            check@ is Fail ==> forall|j: int|
                0 <= j < check@->Fail_0.len() ==> old(self).has_settled(
                    #[trigger] check@->Fail_0[j],
                ),
        ensures
            final(self).wf(),
            final(self)@ == old(self)@.insert(k@, Some(check@)),
    {
        proof {
            old(self).lemma_ranks();
        }
        let ghost held = check@;
        let ghost key = k@;
        self.settled.push((k, check));
        proof {
            let before = old(self).settled_keys();
            let after = self.settled_keys();
            let n = before.len() as int;
            assert(after =~= before.push(key));
            assert(self.marks() =~= old(self).marks());
            assert(!before.contains(key));
            assert(after.no_duplicates());
            let checks = self.settled_checks();
            assert(checks =~= old(self).settled_checks().push(held));
            assert forall|i: int, j: int|
                0 <= i < checks.len() && checks[i] is Fail && 0 <= j
                    < checks[i]->Fail_0.len() implies occurs_before(
                after,
                #[trigger] checks[i]->Fail_0[j],
                i,
            ) by {
                let child = checks[i]->Fail_0[j];
                if i < n {
                    assert(occurs_before(before, old(self).settled_checks()[i]->Fail_0[j], i));
                    let p = choose|p: int|
                        0 <= p < i && p < before.len() && #[trigger] before[p] == child;
                    assert(after[p] == child);
                } else {
                    assert(old(self).has_settled(held->Fail_0[j]));
                    assert(before.contains(child));
                    let p = before.index_of(child);
                    assert(after[p] == child);
                }
            }
            assert forall|x: CauseView<T>| #[trigger]
                after.contains(x) implies after.index_of(x) == (if x == key {
                n
            } else {
                before.index_of(x)
            }) by {
                let at = after.index_of(x);
                assert(after[at] == x);
                if x != key {
                    assert(before.contains(x));
                    let was = before.index_of(x);
                    assert(before[was] == x);
                    assert(after[was] == x);
                }
            }
            assert(after[n] == key);
            assert forall|x: CauseView<T>| after.contains(x) <==> (before.contains(x) || x == key) by {
                if before.contains(x) {
                    let was = before.index_of(x);
                    assert(before[was] == x);
                    assert(after[was] == x);
                }
                if after.contains(x) && x != key {
                    let at = after.index_of(x);
                    assert(after[at] == x);
                    assert(before[at] == x);
                }
            }
            assert forall|x: CauseView<T>| #[trigger]
                self@.dom().contains(x) implies self@[x] == old(self)@.insert(key, Some(held))[x] by {
                if after.contains(x) {
                    if x != key {
                        let was = before.index_of(x);
                        assert(before[was] == x);
                        assert(checks[was] == old(self).settled_checks()[was]);
                    }
                }
            }
            assert(self@ =~= old(self)@.insert(key, Some(held)));
        }
    }
}

} // verus!
