//! Why the evaluation of a finite causal graph comes to an end.

use crate::cause::{CauseView, Fact};
use crate::eval::{eval, eval_each, lemma_eval_fuel, terminates, Memo};
use vstd::prelude::*;
use vstd::set_lib::lemma_len_subset;

verus! {

/// `graph` holds, with each of its causes, the causes that evaluation goes
/// on to from there: the children of `Any` and `Every`, and what explains a
/// false fact.
pub open spec fn closed<T: Fact>(graph: Set<CauseView<T>>, ctx: T::Context) -> bool {
    forall|c: CauseView<T>| #[trigger]
        graph.contains(c) ==> match c {
            CauseView::Fact(f) => f.holds(&ctx) || match f.reason(&ctx) {
                Some(sub) => graph.contains(sub),
                None => true,
            },
            CauseView::Any(cs) => holds_all(graph, cs),
            CauseView::Every(cs) => holds_all(graph, cs),
        }
}

/// `graph` holds each of `cs`.
pub open spec fn holds_all<T>(graph: Set<CauseView<T>>, cs: Seq<CauseView<T>>) -> bool {
    forall|i: int| 0 <= i < cs.len() ==> graph.contains(#[trigger] cs[i])
}

/// The number of causes of `graph` that have not been visited.
pub open spec fn unvisited<T>(graph: Set<CauseView<T>>, memo: Memo<T>) -> nat {
    graph.difference(memo.dom()).len()
}

/// Visiting one more cause of the graph leaves one fewer unvisited.
proof fn lemma_mark_visits<T>(graph: Set<CauseView<T>>, memo: Memo<T>, c: CauseView<T>)
    requires
        graph.finite(),
        graph.contains(c),
        !memo.dom().contains(c),
    ensures
        unvisited(graph, memo.insert(c, None)) + 1 == unvisited(graph, memo),
{
    let before = graph.difference(memo.dom());
    let after = graph.difference(memo.insert(c, None).dom());
    assert(after =~= before.remove(c));
    assert(before.contains(c));
}

/// A memo that holds more leaves no more unvisited.
proof fn lemma_more_visited<T>(graph: Set<CauseView<T>>, memo: Memo<T>, later: Memo<T>)
    requires
        graph.finite(),
        memo.dom().subset_of(later.dom()),
    ensures
        unvisited(graph, later) <= unvisited(graph, memo),
{
    lemma_len_subset(graph.difference(later.dom()), graph.difference(memo.dom()));
}

/// Evaluating a cause of a finite closed graph ends with one unit of fuel
/// more than there are unvisited causes, and forgets nothing that was
/// visited.
proof fn lemma_eval_ends<T: Fact>(
    graph: Set<CauseView<T>>,
    c: CauseView<T>,
    ctx: T::Context,
    memo: Memo<T>,
)
    requires
        graph.finite(),
        closed(graph, ctx),
        graph.contains(c),
    ensures
        eval(c, ctx, memo, unvisited(graph, memo) + 1) is Some,
        memo.dom().subset_of(eval(c, ctx, memo, unvisited(graph, memo) + 1)->0.memo.dom()),
    decreases unvisited(graph, memo), 0nat,
{
    if !memo.dom().contains(c) {
        let marked = memo.insert(c, None);
        let fuel = unvisited(graph, memo);
        lemma_mark_visits(graph, memo, c);
        match c {
            CauseView::Fact(f) => {
                if !f.holds(&ctx) {
                    match f.reason(&ctx) {
                        None => {},
                        Some(sub) => {
                            lemma_eval_ends(graph, sub, ctx, marked);
                        },
                    }
                }
            },
            CauseView::Any(cs) => {
                lemma_eval_each_ends(graph, cs, ctx, marked, fuel);
            },
            CauseView::Every(cs) => {
                lemma_eval_each_ends(graph, cs, ctx, marked, fuel);
            },
        }
    }
}

/// Evaluating causes of a finite closed graph in turn ends with any fuel
/// beyond the number of unvisited causes, and forgets nothing that was
/// visited.
proof fn lemma_eval_each_ends<T: Fact>(
    graph: Set<CauseView<T>>,
    cs: Seq<CauseView<T>>,
    ctx: T::Context,
    memo: Memo<T>,
    fuel: nat,
)
    requires
        graph.finite(),
        closed(graph, ctx),
        holds_all(graph, cs),
        fuel > unvisited(graph, memo),
    ensures
        eval_each(cs, ctx, memo, fuel) is Some,
        memo.dom().subset_of(eval_each(cs, ctx, memo, fuel)->0.memo.dom()),
    decreases unvisited(graph, memo), cs.len() + 1,
{
    if cs.len() > 0 {
        assert(graph.contains(cs[0]));
        lemma_eval_ends(graph, cs[0], ctx, memo);
        lemma_eval_fuel(cs[0], ctx, memo, unvisited(graph, memo) + 1, fuel);
        let first = eval(cs[0], ctx, memo, fuel)->0;
        lemma_more_visited(graph, memo, first.memo);
        assert forall|i: int| 0 <= i < cs.drop_first().len() implies graph.contains(
            #[trigger] cs.drop_first()[i],
        ) by {
            assert(cs.drop_first()[i] == cs[i + 1]);
        }
        lemma_eval_each_ends(graph, cs.drop_first(), ctx, first.memo, fuel);
    }
}

/// Evaluating a cause comes to an end if the causes that can be reached from
/// it are finitely many: that is, if they all lie in some finite graph that
/// is closed.
pub proof fn law_finite_graph_terminates<T: Fact>(
    graph: Set<CauseView<T>>,
    c: CauseView<T>,
    ctx: T::Context,
    memo: Memo<T>,
)
    requires
        graph.finite(),
        closed(graph, ctx),
        graph.contains(c),
    ensures
        terminates(c, ctx, memo),
{
    lemma_eval_ends(graph, c, ctx, memo);
}

} // verus!
