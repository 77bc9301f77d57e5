//! Evaluating a cause against a context, with a memo.

use crate::cause::{
    lemma_view_any, lemma_view_every, views, well_behaved, Cause, CauseView, Check, CheckView,
    Fact,
};
use crate::eval::{
    causes_of, depth, depth_each, each_terminates, eval, eval_each, evaluation, evaluation_each,
    lemma_depth, lemma_depth_each, lemma_evaluation, lemma_evaluation_each, lemma_submap_chain,
    lemma_submap_keeps, settled_in,
    terminates, Outcome, Survivors,
};
use crate::table::TraversalMap;
use vstd::prelude::*;

verus! {

/// The view of an optional check.
pub open spec fn check_view<T>(check: Option<Check<T>>) -> Option<CheckView<T>> {
    match check {
        Some(check) => Some(check@),
        None => None,
    }
}

/// The views of a list of causes with their checks, one for one.
pub open spec fn seen_view<T>(seen: Seq<(Cause<T>, Check<T>)>) -> Seq<(CauseView<T>, CheckView<T>)> {
    Seq::new(seen.len(), |i: int| (seen[i].0@, seen[i].1@))
}

/// Evaluates `cause` against `ctx`, reusing and extending `table`.
///
/// Returns the check of `cause`, or `None` where every path below it led
/// back into a cause whose own evaluation had not produced a check. What the
/// table held before is kept; whatever was visited on the way is added; and
/// `cause` itself ends up in the table with what is returned.
pub fn traverse_inner<F: Fact>(cause: &Cause<F>, ctx: &F::Context, table: &mut TraversalMap<F>) -> (r:
    Option<Check<F>>)
    requires
        well_behaved::<F>(),
        old(table).wf(),
        terminates(cause@, *ctx, old(table)@),
    ensures
        final(table).wf(),
        evaluation(cause@, *ctx, old(table)@) == (Outcome {
            check: check_view(r),
            memo: final(table)@,
        }),
        old(table)@.submap_of(final(table)@),
        final(table)@.dom().contains(cause@),
        final(table)@[cause@] == check_view(r),
    decreases depth(cause@, *ctx, old(table)@), 0nat,
{
    let ghost c = cause@;
    let ghost before = table@;
    let ghost fuel = depth(c, *ctx, before);
    proof {
        let some = choose|n: nat| (#[trigger] eval(c, *ctx, before, n)) is Some;
        lemma_depth(c, *ctx, before, some);
        lemma_evaluation(c, *ctx, before, fuel);
    }
    match table.lookup(cause) {
        Some(None) => {
            return None;
        },
        Some(Some(check)) => {
            return Some(check.clone());
        },
        None => {},
    }
    table.mark(cause.clone());
    let ghost marked = table@;
    let check = match cause {
        Cause::Fact(f) => {
            if f.check(ctx) {
                Check::Pass
            } else {
                match f.cause(ctx) {
                    Some(sub) => {
                        proof {
                            lemma_depth(sub@, *ctx, marked, (fuel - 1) as nat);
                            lemma_evaluation(sub@, *ctx, marked, (fuel - 1) as nat);
                        }
                        let below = traverse_inner(&sub, ctx, table);
                        proof {
                            lemma_submap_chain(before, marked, table@);
                            lemma_submap_keeps(marked, table@, c);
                        }
                        if below.is_none() {
                            return None;
                        }
                        let mut causes: Vec<Cause<F>> = Vec::new();
                        causes.push(sub);
                        proof {
                            assert(views(causes@) =~= seq![sub@]);
                        }
                        Check::Fail(causes)
                    },
                    None => {
                        let causes: Vec<Cause<F>> = Vec::new();
                        proof {
                            assert(views(causes@) =~= Seq::<CauseView<F>>::empty());
                        }
                        Check::Fail(causes)
                    },
                }
            }
        },
        Cause::Any(cs) => {
            proof {
                lemma_view_any(*cs);
                lemma_depth_each(views(cs@), *ctx, marked, (fuel - 1) as nat);
                lemma_evaluation_each(views(cs@), *ctx, marked, (fuel - 1) as nat);
            }
            let checks = evaluate_children(cs, ctx, table);
            proof {
                lemma_submap_chain(before, marked, table@);
                lemma_submap_keeps(marked, table@, c);
            }
            if checks.len() == 0 {
                return None;
            }
            let fails = failing_causes(&checks);
            if fails.len() < checks.len() {
                Check::Pass
            } else {
                Check::Fail(fails)
            }
        },
        Cause::Every(cs) => {
            proof {
                lemma_view_every(*cs);
                lemma_depth_each(views(cs@), *ctx, marked, (fuel - 1) as nat);
                lemma_evaluation_each(views(cs@), *ctx, marked, (fuel - 1) as nat);
            }
            let checks = evaluate_children(cs, ctx, table);
            proof {
                lemma_submap_chain(before, marked, table@);
                lemma_submap_keeps(marked, table@, c);
            }
            if checks.len() == 0 {
                return None;
            }
            let fails = failing_causes(&checks);
            if fails.len() == 0 {
                Check::Pass
            } else {
                Check::Fail(all_causes(&checks))
            }
        },
    };
    let kept = check.clone();
    table.settle(cause.clone(), kept);
    Some(check)
}

/// Evaluates the causes of `cs` from first to last and returns those that
/// produced a check, each with its check.
pub fn evaluate_children<F: Fact>(
    cs: &Vec<Cause<F>>,
    ctx: &F::Context,
    table: &mut TraversalMap<F>,
) -> (r: Vec<(Cause<F>, Check<F>)>)
    requires
        well_behaved::<F>(),
        old(table).wf(),
        each_terminates(views(cs@), *ctx, old(table)@),
    ensures
        final(table).wf(),
        evaluation_each(views(cs@), *ctx, old(table)@) == (Survivors {
            seen: seen_view(r@),
            memo: final(table)@,
        }),
        old(table)@.submap_of(final(table)@),
        forall|j: int| 0 <= j < r.len() ==> settled_in(final(table)@, #[trigger] r[j].0@),
    decreases depth_each(views(cs@), *ctx, old(table)@), 1nat,
{
    let ghost all = views(cs@);
    let ghost before = table@;
    let ghost fuel = depth_each(all, *ctx, before);
    proof {
        let some = choose|n: nat| (#[trigger] eval_each(all, *ctx, before, n)) is Some;
        lemma_depth_each(all, *ctx, before, some);
        lemma_evaluation_each(all, *ctx, before, fuel);
        assert(all.skip(0) =~= all);
    }
    let ghost total = eval_each(all, *ctx, before, fuel)->0;
    let mut checks: Vec<(Cause<F>, Check<F>)> = Vec::new();
    let mut i: usize = 0;
    while i < cs.len()
        invariant
            well_behaved::<F>(),
            all == views(cs@),
            i <= cs.len(),
            table.wf(),
            before.submap_of(table@),
            before == old(table)@,
            fuel == depth_each(all, *ctx, before),
            eval_each(all.skip(i as int), *ctx, table@, fuel) is Some,
            total.seen == seen_view(checks@) + eval_each(
                all.skip(i as int),
                *ctx,
                table@,
                fuel,
            )->0.seen,
            total.memo == eval_each(all.skip(i as int), *ctx, table@, fuel)->0.memo,
            forall|j: int| 0 <= j < checks.len() ==> settled_in(table@, #[trigger] checks[j].0@),
        decreases cs.len() - i,
    {
        let ghost rest = all.skip(i as int);
        let ghost held = table@;
        let ghost prior = seen_view(checks@);
        proof {
            assert(rest[0] == cs[i as int]@);
            assert(rest.drop_first() =~= all.skip(i + 1));
            lemma_depth(rest[0], *ctx, held, fuel);
            lemma_evaluation(rest[0], *ctx, held, fuel);
        }
        let found = traverse_inner(&cs[i], ctx, table);
        proof {
            lemma_submap_chain(before, held, table@);
            assert forall|j: int| 0 <= j < checks.len() implies settled_in(
                table@,
                #[trigger] checks[j].0@,
            ) by {
                assert(settled_in(held, checks[j].0@));
                lemma_submap_keeps(held, table@, checks[j].0@);
            }
        }
        match found {
            Some(check) => {
                let child = cs[i].clone();
                checks.push((child, check));
                proof {
                    assert(seen_view(checks@) =~= prior + seq![(rest[0], check@)]);
                    let after = eval_each(all.skip(i + 1), *ctx, table@, fuel)->0.seen;
                    assert(prior + (seq![(rest[0], check@)] + after) =~= (prior + seq![
                        (rest[0], check@),
                    ]) + after);
                }
            },
            None => {},
        }
        i = i + 1;
    }
    proof {
        assert(all.skip(i as int).len() == 0);
        assert(total.seen =~= seen_view(checks@));
    }
    checks
}

/// The causes among `seen` whose check is a failure, in order.
fn failing_causes<T: Clone>(seen: &Vec<(Cause<T>, Check<T>)>) -> (r: Vec<Cause<T>>)
    requires
        crate::cause::clone_is_exact::<T>(),
    ensures
        r.len() <= seen.len(),
        r.len() == seen.len() <==> forall|i: int|
            0 <= i < seen.len() ==> (#[trigger] seen_view(seen@)[i]).1 is Fail,
        r.len() == 0 <==> forall|i: int|
            0 <= i < seen.len() ==> (#[trigger] seen_view(seen@)[i]).1 is Pass,
        r.len() == seen.len() ==> views(r@) == causes_of(seen_view(seen@)),
{
    let mut fails: Vec<Cause<T>> = Vec::new();
    let mut i: usize = 0;
    while i < seen.len()
        invariant
            crate::cause::clone_is_exact::<T>(),
            i <= seen.len(),
            fails.len() <= i,
            fails.len() == i <==> forall|j: int|
                0 <= j < i ==> (#[trigger] seen_view(seen@)[j]).1 is Fail,
            fails.len() == 0 <==> forall|j: int|
                0 <= j < i ==> (#[trigger] seen_view(seen@)[j]).1 is Pass,
            fails.len() == i ==> forall|j: int| 0 <= j < i ==> fails[j]@ == seen[j].0@,
        decreases seen.len() - i,
    {
        if !seen[i].1.is_pass() {
            let c = seen[i].0.clone();
            fails.push(c);
            proof {
                assert(seen_view(seen@)[i as int].1 is Fail);
            }
        } else {
            proof {
                assert(seen_view(seen@)[i as int].1 is Pass);
            }
        }
        i = i + 1;
    }
    proof {
        if fails.len() == seen.len() {
            assert(views(fails@) =~= causes_of(seen_view(seen@)));
        }
    }
    fails
}

/// The causes of `seen`, in order.
fn all_causes<T: Clone>(seen: &Vec<(Cause<T>, Check<T>)>) -> (r: Vec<Cause<T>>)
    requires
        crate::cause::clone_is_exact::<T>(),
    ensures
        views(r@) == causes_of(seen_view(seen@)),
{
    let mut causes: Vec<Cause<T>> = Vec::new();
    let mut i: usize = 0;
    while i < seen.len()
        invariant
            crate::cause::clone_is_exact::<T>(),
            i <= seen.len(),
            causes.len() == i,
            forall|j: int| 0 <= j < i ==> causes[j]@ == seen[j].0@,
        decreases seen.len() - i,
    {
        let c = seen[i].0.clone();
        causes.push(c);
        i = i + 1;
    }
    proof {
        assert(views(causes@) =~= causes_of(seen_view(seen@)));
    }
    causes
}

} // verus!
