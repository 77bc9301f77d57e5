//! What it means to evaluate a cause.
//!
//! Evaluation is memoised and has to cope with causes that lead back to
//! themselves, so its result depends on what has been visited before. The
//! functions here say, over maps and sequences, what each step returns and
//! how it changes the memo.

use crate::cause::{CauseView, CheckView, Fact};
use vstd::prelude::*;

verus! {

/// The memo of one traversal. A cause that is absent has not been visited.
/// One that maps to `None` is marked: its evaluation has started and has not
/// produced a check. One that maps to `Some` is settled.
pub type Memo<T> = Map<CauseView<T>, Option<CheckView<T>>>;

/// Whether `k` has settled in `memo`.
pub open spec fn settled_in<T>(memo: Memo<T>, k: CauseView<T>) -> bool {
    memo.dom().contains(k) && memo[k] is Some
}

/// What evaluating one cause gives: its check, or `None` where every path
/// below it led back into a marked cause, and the memo afterwards.
#[verifier::reject_recursive_types(T)]
pub struct Outcome<T> {
    /// The check of the cause, if its evaluation produced one.
    pub check: Option<CheckView<T>>,
    /// The memo afterwards.
    pub memo: Memo<T>,
}

/// What evaluating a list of causes gives: those that produced a check, each
/// with its check, in the order of the list, and the memo afterwards.
#[verifier::reject_recursive_types(T)]
pub struct Survivors<T> {
    /// The causes that produced a check, each with its check.
    pub seen: Seq<(CauseView<T>, CheckView<T>)>,
    /// The memo afterwards.
    pub memo: Memo<T>,
}

/// The causes of a list of survivors.
pub open spec fn causes_of<T>(seen: Seq<(CauseView<T>, CheckView<T>)>) -> Seq<CauseView<T>> {
    Seq::new(seen.len(), |i: int| seen[i].0)
}

/// The check of `Any` over the children that produced a check: it passes if
/// one of them passes, and otherwise fails with all of them.
pub open spec fn any_check<T>(seen: Seq<(CauseView<T>, CheckView<T>)>) -> CheckView<T> {
    if exists|i: int| 0 <= i < seen.len() && (#[trigger] seen[i]).1 is Pass {
        CheckView::Pass
    } else {
        CheckView::Fail(causes_of(seen))
    }
}

/// The check of `Every` over the children that produced a check: it passes if
/// all of them pass, and otherwise fails with all of them, the passing ones
/// included.
pub open spec fn every_check<T>(seen: Seq<(CauseView<T>, CheckView<T>)>) -> CheckView<T> {
    if forall|i: int| 0 <= i < seen.len() ==> (#[trigger] seen[i]).1 is Pass {
        CheckView::Pass
    } else {
        CheckView::Fail(causes_of(seen))
    }
}

/// Records `check` for `c` and returns it.
pub open spec fn settle<T>(c: CauseView<T>, check: CheckView<T>, memo: Memo<T>) -> Outcome<T> {
    Outcome { check: Some(check), memo: memo.insert(c, Some(check)) }
}

/// Evaluates `c` with the given memo, nesting at most `fuel` deep. `None`
/// means that `fuel` was not enough.
pub open spec fn eval<T: Fact>(c: CauseView<T>, ctx: T::Context, memo: Memo<T>, fuel: nat) -> Option<
    Outcome<T>,
>
    decreases fuel, 0nat,
{
    if memo.dom().contains(c) {
        // Visited before: a settled check is reused, a mark means a loop.
        Some(Outcome { check: memo[c], memo })
    } else if fuel == 0 {
        None
    } else {
        let marked = memo.insert(c, None);
        match c {
            CauseView::Fact(f) => {
                if f.holds(&ctx) {
                    Some(settle(c, CheckView::Pass, marked))
                } else {
                    match f.reason(&ctx) {
                        None => Some(settle(c, CheckView::Fail(Seq::empty()), marked)),
                        Some(sub) => match eval(sub, ctx, marked, (fuel - 1) as nat) {
                            None => None,
                            Some(below) => if below.check is None {
                                Some(below)
                            } else {
                                Some(settle(c, CheckView::Fail(seq![sub]), below.memo))
                            },
                        },
                    }
                }
            },
            CauseView::Any(cs) => match eval_each(cs, ctx, marked, (fuel - 1) as nat) {
                None => None,
                Some(below) => if below.seen.len() == 0 {
                    Some(Outcome { check: None, memo: below.memo })
                } else {
                    Some(settle(c, any_check(below.seen), below.memo))
                },
            },
            CauseView::Every(cs) => match eval_each(cs, ctx, marked, (fuel - 1) as nat) {
                None => None,
                Some(below) => if below.seen.len() == 0 {
                    Some(Outcome { check: None, memo: below.memo })
                } else {
                    Some(settle(c, every_check(below.seen), below.memo))
                },
            },
        }
    }
}

/// Evaluates the causes of `cs` from first to last, each with the memo that
/// the one before left, and drops those that produce no check.
pub open spec fn eval_each<T: Fact>(
    cs: Seq<CauseView<T>>,
    ctx: T::Context,
    memo: Memo<T>,
    fuel: nat,
) -> Option<Survivors<T>>
    decreases fuel, cs.len() + 1,
{
    if cs.len() == 0 {
        Some(Survivors { seen: Seq::empty(), memo })
    } else {
        match eval(cs[0], ctx, memo, fuel) {
            None => None,
            Some(first) => match eval_each(cs.drop_first(), ctx, first.memo, fuel) {
                None => None,
                Some(rest) => Some(
                    Survivors {
                        seen: match first.check {
                            Some(check) => seq![(cs[0], check)] + rest.seen,
                            None => rest.seen,
                        },
                        memo: rest.memo,
                    },
                ),
            },
        }
    }
}

/// Evaluating `c` comes to an end.
pub open spec fn terminates<T: Fact>(c: CauseView<T>, ctx: T::Context, memo: Memo<T>) -> bool {
    exists|fuel: nat| (#[trigger] eval(c, ctx, memo, fuel)) is Some
}

/// The outcome of evaluating `c`, where that comes to an end.
pub open spec fn evaluation<T: Fact>(c: CauseView<T>, ctx: T::Context, memo: Memo<T>) -> Outcome<T> {
    eval(c, ctx, memo, choose|fuel: nat| (#[trigger] eval(c, ctx, memo, fuel)) is Some)->0
}

/// Evaluating each of `cs` in turn comes to an end.
pub open spec fn each_terminates<T: Fact>(
    cs: Seq<CauseView<T>>,
    ctx: T::Context,
    memo: Memo<T>,
) -> bool {
    exists|fuel: nat| (#[trigger] eval_each(cs, ctx, memo, fuel)) is Some
}

/// The outcome of evaluating each of `cs` in turn, where that comes to an end.
pub open spec fn evaluation_each<T: Fact>(
    cs: Seq<CauseView<T>>,
    ctx: T::Context,
    memo: Memo<T>,
) -> Survivors<T> {
    eval_each(cs, ctx, memo, choose|fuel: nat| (#[trigger] eval_each(cs, ctx, memo, fuel)) is Some)->0
}

/// `fuel` is the least nesting depth with which evaluating `c` ends.
pub open spec fn is_depth<T: Fact>(c: CauseView<T>, ctx: T::Context, memo: Memo<T>, fuel: nat) -> bool {
    eval(c, ctx, memo, fuel) is Some && (fuel == 0 || eval(c, ctx, memo, (fuel - 1) as nat) is None)
}

/// How deep evaluating `c` nests, where it comes to an end.
pub open spec fn depth<T: Fact>(c: CauseView<T>, ctx: T::Context, memo: Memo<T>) -> nat {
    choose|fuel: nat| is_depth(c, ctx, memo, fuel)
}

/// `fuel` is the least nesting depth with which evaluating each of `cs` ends.
pub open spec fn is_depth_each<T: Fact>(
    cs: Seq<CauseView<T>>,
    ctx: T::Context,
    memo: Memo<T>,
    fuel: nat,
) -> bool {
    eval_each(cs, ctx, memo, fuel) is Some && (fuel == 0 || eval_each(
        cs,
        ctx,
        memo,
        (fuel - 1) as nat,
    ) is None)
}

/// How deep evaluating each of `cs` nests, where it comes to an end.
pub open spec fn depth_each<T: Fact>(cs: Seq<CauseView<T>>, ctx: T::Context, memo: Memo<T>) -> nat {
    choose|fuel: nat| is_depth_each(cs, ctx, memo, fuel)
}

/// More fuel than needed changes nothing.
pub proof fn lemma_eval_fuel<T: Fact>(
    c: CauseView<T>,
    ctx: T::Context,
    memo: Memo<T>,
    fuel: nat,
    more: nat,
)
    requires
        eval(c, ctx, memo, fuel) is Some,
        fuel <= more,
    ensures
        eval(c, ctx, memo, more) == eval(c, ctx, memo, fuel),
    decreases fuel, 0nat,
{
    if memo.dom().contains(c) {
    } else {
        let marked = memo.insert(c, None);
        match c {
            CauseView::Fact(f) => {
                if !f.holds(&ctx) {
                    match f.reason(&ctx) {
                        None => {},
                        Some(sub) => {
                            lemma_eval_fuel(sub, ctx, marked, (fuel - 1) as nat, (more - 1) as nat);
                        },
                    }
                }
            },
            CauseView::Any(cs) => {
                lemma_eval_each_fuel(cs, ctx, marked, (fuel - 1) as nat, (more - 1) as nat);
            },
            CauseView::Every(cs) => {
                lemma_eval_each_fuel(cs, ctx, marked, (fuel - 1) as nat, (more - 1) as nat);
            },
        }
    }
}

/// More fuel than needed changes nothing, for a list of causes.
pub proof fn lemma_eval_each_fuel<T: Fact>(
    cs: Seq<CauseView<T>>,
    ctx: T::Context,
    memo: Memo<T>,
    fuel: nat,
    more: nat,
)
    requires
        eval_each(cs, ctx, memo, fuel) is Some,
        fuel <= more,
    ensures
        eval_each(cs, ctx, memo, more) == eval_each(cs, ctx, memo, fuel),
    decreases fuel, cs.len() + 1,
{
    if cs.len() > 0 {
        lemma_eval_fuel(cs[0], ctx, memo, fuel, more);
        let first = eval(cs[0], ctx, memo, fuel)->0;
        lemma_eval_each_fuel(cs.drop_first(), ctx, first.memo, fuel, more);
    }
}

/// An evaluation that ends with some fuel is the evaluation.
pub proof fn lemma_evaluation<T: Fact>(c: CauseView<T>, ctx: T::Context, memo: Memo<T>, fuel: nat)
    requires
        eval(c, ctx, memo, fuel) is Some,
    ensures
        terminates(c, ctx, memo),
        evaluation(c, ctx, memo) == eval(c, ctx, memo, fuel)->0,
{
    let chosen = choose|n: nat| (#[trigger] eval(c, ctx, memo, n)) is Some;
    if chosen <= fuel {
        lemma_eval_fuel(c, ctx, memo, chosen, fuel);
    } else {
        lemma_eval_fuel(c, ctx, memo, fuel, chosen);
    }
}

/// An evaluation of a list that ends with some fuel is the evaluation.
pub proof fn lemma_evaluation_each<T: Fact>(
    cs: Seq<CauseView<T>>,
    ctx: T::Context,
    memo: Memo<T>,
    fuel: nat,
)
    requires
        eval_each(cs, ctx, memo, fuel) is Some,
    ensures
        each_terminates(cs, ctx, memo),
        evaluation_each(cs, ctx, memo) == eval_each(cs, ctx, memo, fuel)->0,
{
    let chosen = choose|n: nat| (#[trigger] eval_each(cs, ctx, memo, n)) is Some;
    if chosen <= fuel {
        lemma_eval_each_fuel(cs, ctx, memo, chosen, fuel);
    } else {
        lemma_eval_each_fuel(cs, ctx, memo, fuel, chosen);
    }
}

/// Where evaluating `c` ends with `fuel`, its depth is defined and at most
/// `fuel`, and the evaluation is what any sufficient fuel gives.
pub proof fn lemma_depth<T: Fact>(c: CauseView<T>, ctx: T::Context, memo: Memo<T>, fuel: nat)
    requires
        eval(c, ctx, memo, fuel) is Some,
    ensures
        is_depth(c, ctx, memo, depth(c, ctx, memo)),
        depth(c, ctx, memo) <= fuel,
        eval(c, ctx, memo, depth(c, ctx, memo)) == eval(c, ctx, memo, fuel),
    decreases fuel,
{
    if fuel == 0 || eval(c, ctx, memo, (fuel - 1) as nat) is None {
        assert(is_depth(c, ctx, memo, fuel));
        let d = depth(c, ctx, memo);
        if d < fuel {
            lemma_eval_fuel(c, ctx, memo, d, (fuel - 1) as nat);
        } else {
            lemma_eval_fuel(c, ctx, memo, fuel, d);
            if d > fuel {
                lemma_eval_fuel(c, ctx, memo, fuel, (d - 1) as nat);
            }
        }
    } else {
        lemma_depth(c, ctx, memo, (fuel - 1) as nat);
        lemma_eval_fuel(c, ctx, memo, (fuel - 1) as nat, fuel);
    }
}

/// Where evaluating each of `cs` ends with `fuel`, the depth is defined and
/// at most `fuel`.
pub proof fn lemma_depth_each<T: Fact>(
    cs: Seq<CauseView<T>>,
    ctx: T::Context,
    memo: Memo<T>,
    fuel: nat,
)
    requires
        eval_each(cs, ctx, memo, fuel) is Some,
    ensures
        is_depth_each(cs, ctx, memo, depth_each(cs, ctx, memo)),
        depth_each(cs, ctx, memo) <= fuel,
        eval_each(cs, ctx, memo, depth_each(cs, ctx, memo)) == eval_each(cs, ctx, memo, fuel),
    decreases fuel,
{
    if fuel == 0 || eval_each(cs, ctx, memo, (fuel - 1) as nat) is None {
        assert(is_depth_each(cs, ctx, memo, fuel));
        let d = depth_each(cs, ctx, memo);
        if d < fuel {
            lemma_eval_each_fuel(cs, ctx, memo, d, (fuel - 1) as nat);
        } else {
            lemma_eval_each_fuel(cs, ctx, memo, fuel, d);
            if d > fuel {
                lemma_eval_each_fuel(cs, ctx, memo, fuel, (d - 1) as nat);
            }
        }
    } else {
        lemma_depth_each(cs, ctx, memo, (fuel - 1) as nat);
        lemma_eval_each_fuel(cs, ctx, memo, (fuel - 1) as nat, fuel);
    }
}

/// A larger map holds what the smaller one holds.
pub proof fn lemma_submap_keeps<K, V>(a: Map<K, V>, b: Map<K, V>, k: K)
    requires
        a.submap_of(b),
        a.dom().contains(k),
    ensures
        b.dom().contains(k),
        b[k] == a[k],
{
    if !b.dom().contains(k) {
        assert(false);
    }
}

/// Keeping what a map holds carries over from step to step.
pub proof fn lemma_submap_chain<K, V>(a: Map<K, V>, b: Map<K, V>, c: Map<K, V>)
    requires
        a.submap_of(b),
        b.submap_of(c),
    ensures
        a.submap_of(c),
{
    assert forall|k: K| #[trigger] a.dom().contains(k) implies #[trigger] c.dom().contains(k)
        && a[k] == c[k] by {
        assert(b.dom().contains(k));
    }
}

/// Evaluation keeps what the memo held, and leaves the cause in the memo
/// with what it returns: its check, or the mark.
pub proof fn lemma_eval_keeps<T: Fact>(c: CauseView<T>, ctx: T::Context, memo: Memo<T>, fuel: nat)
    requires
        eval(c, ctx, memo, fuel) is Some,
    ensures
        memo.submap_of(eval(c, ctx, memo, fuel)->0.memo),
        eval(c, ctx, memo, fuel)->0.memo.dom().contains(c),
        eval(c, ctx, memo, fuel)->0.memo[c] == eval(c, ctx, memo, fuel)->0.check,
    decreases fuel, 0nat,
{
    let after = eval(c, ctx, memo, fuel)->0.memo;
    if !memo.dom().contains(c) {
        let marked = memo.insert(c, None);
        assert(marked.dom().contains(c));
        match c {
            CauseView::Fact(f) => {
                if !f.holds(&ctx) {
                    match f.reason(&ctx) {
                        None => {},
                        Some(sub) => {
                            lemma_eval_keeps(sub, ctx, marked, (fuel - 1) as nat);
                            let below = eval(sub, ctx, marked, (fuel - 1) as nat)->0.memo;
                            lemma_submap_keeps(marked, below, c);
                        },
                    }
                }
            },
            CauseView::Any(cs) => {
                lemma_eval_each_keeps(cs, ctx, marked, (fuel - 1) as nat);
                let below = eval_each(cs, ctx, marked, (fuel - 1) as nat)->0.memo;
                lemma_submap_keeps(marked, below, c);
            },
            CauseView::Every(cs) => {
                lemma_eval_each_keeps(cs, ctx, marked, (fuel - 1) as nat);
                let below = eval_each(cs, ctx, marked, (fuel - 1) as nat)->0.memo;
                lemma_submap_keeps(marked, below, c);
            },
        }
        assert forall|k: CauseView<T>| #[trigger] memo.dom().contains(k) implies #[trigger] after.dom().contains(
            k,
        ) && memo[k] == after[k] by {
            assert(marked.dom().contains(k) && marked[k] == memo[k]);
            match c {
                CauseView::Fact(f) => {
                    if !f.holds(&ctx) && f.reason(&ctx) is Some {
                        let below = eval(f.reason(&ctx)->0, ctx, marked, (fuel - 1) as nat)->0.memo;
                        lemma_submap_keeps(marked, below, k);
                    }
                },
                CauseView::Any(cs) => {
                    let below = eval_each(cs, ctx, marked, (fuel - 1) as nat)->0.memo;
                    lemma_submap_keeps(marked, below, k);
                },
                CauseView::Every(cs) => {
                    let below = eval_each(cs, ctx, marked, (fuel - 1) as nat)->0.memo;
                    lemma_submap_keeps(marked, below, k);
                },
            }
        }
    }
}

/// Evaluation of a list keeps what the memo held.
pub proof fn lemma_eval_each_keeps<T: Fact>(
    cs: Seq<CauseView<T>>,
    ctx: T::Context,
    memo: Memo<T>,
    fuel: nat,
)
    requires
        eval_each(cs, ctx, memo, fuel) is Some,
    ensures
        memo.submap_of(eval_each(cs, ctx, memo, fuel)->0.memo),
    decreases fuel, cs.len() + 1,
{
    if cs.len() > 0 {
        lemma_eval_keeps(cs[0], ctx, memo, fuel);
        let first = eval(cs[0], ctx, memo, fuel)->0.memo;
        lemma_eval_each_keeps(cs.drop_first(), ctx, first, fuel);
        lemma_submap_chain(memo, first, eval_each(cs, ctx, memo, fuel)->0.memo);
    }
}

} // verus!
