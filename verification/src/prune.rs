//! Pruning a finished memo down to what a traversal reports.

use crate::cause::{views, well_behaved, Cause, CauseView, Check, Fact};
use crate::table::TraversalMap;
use crate::walk::{
    explained_by, failed, failures_of, left, lemma_walk_begins, lemma_walk_ends, lemma_walk_fails,
    lemma_walk_passes, lemma_walk_skips, passes_of, walking,
};
use vstd::laws_eq::obeys_concrete_eq;
use vstd::prelude::*;

verus! {

/// The views of a list of borrowed causes, one for one.
pub open spec fn ref_views<T>(cs: Seq<&Cause<T>>) -> Seq<CauseView<T>> {
    Seq::new(cs.len(), |i: int| cs[i]@)
}

/// The causes of a list of rows, one for one.
pub open spec fn row_keys<T>(rows: Seq<(&Cause<T>, &Vec<Cause<T>>)>) -> Seq<CauseView<T>> {
    Seq::new(rows.len(), |i: int| rows[i].0@)
}

/// The place of the first row for `k` among `rows`, if there is one.
pub fn row_of<T: PartialEq>(rows: &Vec<(&Cause<T>, &Vec<Cause<T>>)>, k: &Cause<T>) -> (r: Option<
    usize,
>)
    requires
        obeys_concrete_eq::<T>(),
    ensures
        match r {
            Some(i) => {
                &&& i < rows.len()
                &&& row_keys(rows@)[i as int] == k@
                &&& forall|j: int| 0 <= j < i ==> row_keys(rows@)[j] != k@
            },
            None => !row_keys(rows@).contains(k@),
        },
{
    let mut i: usize = 0;
    while i < rows.len()
        invariant
            obeys_concrete_eq::<T>(),
            i <= rows.len(),
            forall|j: int| 0 <= j < i ==> row_keys(rows@)[j] != k@,
        decreases rows.len() - i,
    {
        if rows[i].0.eq(k) {
            return Some(i);
        }
        i = i + 1;
    }
    None
}

/// Each row holds a failed cause and the causes that explain it.
pub open spec fn rows_hold<T>(
    memo: crate::eval::Memo<T>,
    rows: Seq<(&Cause<T>, &Vec<Cause<T>>)>,
) -> bool {
    forall|i: int|
        0 <= i < rows.len() ==> failed(memo)((#[trigger] rows[i]).0@) && views(rows[i].1@)
            == explained_by(memo, rows[i].0@)
}

/// Walks the finished `table` from `start` and collects what a traversal
/// reports.
///
/// The first result holds one row for each failed cause that the walk meets:
/// the cause, and the causes that explain it. The second holds the passes
/// that the walk meets, in order. A cause that never settled contributes
/// nothing.
pub fn prune_traversal<'a, T: Fact>(table: &'a TraversalMap<T>, start: &'a Cause<T>) -> (r: (
    Vec<(&'a Cause<T>, &'a Vec<Cause<T>>)>,
    Vec<&'a Cause<T>>,
))
    requires
        well_behaved::<T>(),
        table.wf(),
    ensures
        row_keys(r.0@) == failures_of(table@, start@),
        rows_hold(table@, r.0@),
        ref_views(r.1@) == passes_of(table@, start@),
{
    let mut rows: Vec<(&'a Cause<T>, &'a Vec<Cause<T>>)> = Vec::new();
    let mut passes: Vec<&'a Cause<T>> = Vec::new();
    let mut to_add: Vec<&'a Cause<T>> = Vec::new();
    to_add.push(start);
    let ghost mut done: Seq<CauseView<T>> = Seq::empty();
    proof {
        lemma_walk_begins(table@, start@);
        assert(ref_views(to_add@) =~= seq![start@]);
        assert(ref_views(passes@) =~= Seq::<CauseView<T>>::empty());
        assert(row_keys(rows@) =~= Seq::<CauseView<T>>::empty());
    }
    while to_add.len() > 0
        invariant
            well_behaved::<T>(),
            table.wf(),
            walking(
                table@,
                start@,
                done,
                ref_views(to_add@),
                ref_views(passes@),
                row_keys(rows@),
            ),
            rows_hold(table@, rows@),
        decreases left(table@, ref_views(to_add@)), to_add.len(),
    {
        let ghost stack = ref_views(to_add@);
        let next = to_add.pop().unwrap();
        let ghost rest = ref_views(to_add@);
        let ghost k = next@;
        let ghost keys = row_keys(rows@);
        let ghost held = ref_views(passes@);
        proof {
            assert(stack =~= rest.push(k));
        }
        match table.lookup(next) {
            Some(Some(check)) => {
                match check {
                    Check::Fail(causes) => {
                        proof {
                            lemma_walk_fails(table, start@, done, rest, k, held, keys);
                            done = done.push(k);
                        }
                        push_all(&mut to_add, causes);
                        if row_of(&rows, next).is_none() {
                            let ghost before = rows@;
                            rows.push((next, causes));
                            proof {
                                assert(row_keys(rows@) =~= keys.push(k));
                                assert forall|i: int| 0 <= i < rows.len() implies failed(table@)(
                                    (#[trigger] rows[i]).0@,
                                ) && views(rows[i].1@) == explained_by(table@, rows[i].0@) by {
                                    if i < before.len() {
                                        assert(rows[i] == before[i]);
                                    }
                                }
                            }
                        }
                    },
                    Check::Pass => {
                        passes.push(next);
                        proof {
                            lemma_walk_passes(table@, start@, done, rest, k, held, keys);
                            done = done.push(k);
                            assert(ref_views(passes@) =~= held.push(k));
                        }
                    },
                }
            },
            _ => {
                proof {
                    lemma_walk_skips(table@, start@, done, rest, k, held, keys);
                }
            },
        }
    }
    proof {
        assert(ref_views(to_add@) =~= Seq::<CauseView<T>>::empty());
        lemma_walk_ends(table@, start@, done, ref_views(passes@), row_keys(rows@));
    }
    (rows, passes)
}

/// Puts the causes of `causes` on top of `stack`, the first one lowest.
fn push_all<'a, T>(stack: &mut Vec<&'a Cause<T>>, causes: &'a Vec<Cause<T>>)
    ensures
        ref_views(final(stack)@) == ref_views(old(stack)@) + views(causes@),
{
    let ghost below = ref_views(stack@);
    let mut j: usize = 0;
    proof {
        assert(views(causes@).take(0) =~= Seq::<CauseView<T>>::empty());
        assert(ref_views(stack@) =~= below + views(causes@).take(0));
    }
    while j < causes.len()
        invariant
            j <= causes.len(),
            ref_views(stack@) == below + views(causes@).take(j as int),
        decreases causes.len() - j,
    {
        let ghost held = ref_views(stack@);
        stack.push(&causes[j]);
        proof {
            assert(ref_views(stack@) =~= held.push(causes[j as int]@));
            assert(ref_views(stack@) =~= below + views(causes@).take(j + 1));
        }
        j = j + 1;
    }
    proof {
        assert(views(causes@).take(causes.len() as int) =~= views(causes@));
    }
}

} // verus!
