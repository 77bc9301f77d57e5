//! What holds of every traversal.

use crate::cause::{CauseView, CheckView, Fact};
use crate::eval::{
    eval, eval_each, evaluation, lemma_eval_keeps, lemma_evaluation, terminates, Memo, Outcome,
};
use crate::cause::views;
use crate::graph::{diagnoses, Traversal};
use crate::walk::{
    distinct, explained_by, failed, failures_of, follows, lemma_distinct, lemma_links_follow, links,
    links_from, passed, passes_of, trail, walk, walk_stack,
};
use vstd::prelude::*;

verus! {

/// The memo in which nothing has been visited.
pub open spec fn fresh<T>() -> Memo<T> {
    Map::empty()
}

/// A fact that is true passes, whatever might explain it.
pub proof fn law_true_fact_passes<T: Fact>(f: T, ctx: T::Context)
    requires
        f.holds(&ctx),
    ensures
        terminates(CauseView::Fact(f), ctx, fresh()),
        forall|t: Traversal<T>|
            diagnoses(t, CauseView::Fact(f), evaluation(CauseView::Fact(f), ctx, fresh()))
                ==> t is Pass,
{
    let root = CauseView::Fact(f);
    assert(eval(root, ctx, fresh(), 1) is Some);
    lemma_evaluation(root, ctx, fresh(), 1);
}

/// A false fact whose explanation is the fact itself is groundless.
pub proof fn law_self_loop_is_groundless<T: Fact>(f: T, ctx: T::Context)
    requires
        !f.holds(&ctx),
        f.reason(&ctx) == Some(CauseView::Fact(f)),
    ensures
        terminates(CauseView::Fact(f), ctx, fresh()),
        forall|t: Traversal<T>|
            diagnoses(t, CauseView::Fact(f), evaluation(CauseView::Fact(f), ctx, fresh()))
                ==> t is Groundless,
{
    let root = CauseView::Fact(f);
    reveal_with_fuel(eval, 2);
    assert(eval(root, ctx, fresh(), 2) is Some);
    lemma_evaluation(root, ctx, fresh(), 2);
}

/// Two false facts that explain each other are groundless.
pub proof fn law_two_cycle_is_groundless<T: Fact>(a: T, b: T, ctx: T::Context)
    requires
        !a.holds(&ctx),
        !b.holds(&ctx),
        a.reason(&ctx) == Some(CauseView::Fact(b)),
        b.reason(&ctx) == Some(CauseView::Fact(a)),
    ensures
        terminates(CauseView::Fact(a), ctx, fresh()),
        forall|t: Traversal<T>|
            diagnoses(t, CauseView::Fact(a), evaluation(CauseView::Fact(a), ctx, fresh()))
                ==> t is Groundless,
{
    let root = CauseView::Fact(a);
    reveal_with_fuel(eval, 3);
    assert(eval(root, ctx, fresh(), 3) is Some);
    lemma_evaluation(root, ctx, fresh(), 3);
}

/// `Any` of a true fact and a false fact without explanation passes.
pub proof fn law_any_passes_with_one_pass<T: Fact>(y: T, z: T, ctx: T::Context)
    requires
        y.holds(&ctx),
        !z.holds(&ctx),
        z.reason(&ctx) is None,
    ensures
        terminates(CauseView::Any(seq![CauseView::Fact(y), CauseView::Fact(z)]), ctx, fresh()),
        forall|t: Traversal<T>|
            diagnoses(
                t,
                CauseView::Any(seq![CauseView::Fact(y), CauseView::Fact(z)]),
                evaluation(
                    CauseView::Any(seq![CauseView::Fact(y), CauseView::Fact(z)]),
                    ctx,
                    fresh(),
                ),
            ) ==> t is Pass,
{
    let cy = CauseView::Fact(y);
    let cz = CauseView::Fact(z);
    let cs = seq![cy, cz];
    let root = CauseView::Any(cs);
    let marked = fresh::<T>().insert(root, None);
    reveal_with_fuel(eval, 3);
    reveal_with_fuel(eval_each, 3);
    let first = eval(cy, ctx, marked, 1);
    assert(first is Some && first->0.check == Some(CheckView::<T>::Pass));
    assert(cs.drop_first() =~= seq![cz]);
    assert(cs.drop_first().drop_first() =~= Seq::<CauseView<T>>::empty());
    let below = eval_each(cs, ctx, marked, 1);
    assert(below is Some);
    assert(below->0.seen.len() == 2);
    assert(below->0.seen[0].1 is Pass);
    assert(eval(root, ctx, fresh(), 2) is Some);
    lemma_evaluation(root, ctx, fresh(), 2);
}

/// Filtering a sequence of one element keeps it or drops it.
pub proof fn lemma_filter_one<A>(a: A, pred: spec_fn(A) -> bool)
    ensures
        seq![a].filter(pred) == if pred(a) {
            seq![a]
        } else {
            Seq::<A>::empty()
        },
{
    let none = Seq::<A>::empty();
    assert(none.filter(pred) =~= none) by {
        reveal(Seq::filter);
    }
    none.lemma_filter_push(a, pred);
    assert(none.push(a) =~= seq![a]);
}

/// Filtering a sequence of two elements keeps or drops each.
pub proof fn lemma_filter_two<A>(a: A, b: A, pred: spec_fn(A) -> bool)
    ensures
        seq![a, b].filter(pred) == seq![a].filter(pred) + seq![b].filter(pred),
{
    lemma_filter_one(a, pred);
    lemma_filter_one(b, pred);
    seq![a].lemma_filter_push(b, pred);
    assert(seq![a].push(b) =~= seq![a, b]);
    assert(seq![a].filter(pred) + seq![b].filter(pred) =~= if pred(b) {
        seq![a].filter(pred).push(b)
    } else {
        seq![a].filter(pred)
    });
}

/// `distinct` of nothing is nothing, and of one element is that element.
pub proof fn lemma_distinct_small<A>(a: A)
    ensures
        distinct(Seq::<A>::empty()) == Seq::<A>::empty(),
        distinct(seq![a]) == seq![a],
{
    reveal_with_fuel(distinct, 2);
    assert(seq![a].drop_last() =~= Seq::<A>::empty());
    assert(distinct(seq![a]) =~= seq![a]);
}

/// `distinct` of two different elements is the two.
pub proof fn lemma_distinct_two<A>(a: A, b: A)
    requires
        a != b,
    ensures
        distinct(seq![a, b]) == seq![a, b],
{
    lemma_distinct_small(a);
    assert(seq![a, b].drop_last() =~= seq![a]);
    assert(!seq![a].contains(b));
    assert(distinct(seq![a, b]) =~= seq![a, b]);
}

/// A false fact without explanation fails, and is the whole graph: one node,
/// no edge, and no pass.
pub proof fn law_false_axiom_fails_alone<T: Fact>(f: T, ctx: T::Context)
    requires
        !f.holds(&ctx),
        f.reason(&ctx) is None,
    ensures
        terminates(CauseView::Fact(f), ctx, fresh()),
        forall|t: Traversal<T>|
            diagnoses(t, CauseView::Fact(f), evaluation(CauseView::Fact(f), ctx, fresh()))
                ==> match t {
                Traversal::Fail { graph, passes } => {
                    &&& graph@.nodes == seq![CauseView::Fact(f)]
                    &&& graph@.edges == Seq::<(CauseView<T>, CauseView<T>)>::empty()
                    &&& views(passes@) == Seq::<CauseView<T>>::empty()
                },
                _ => false,
            },
{
    let root = CauseView::Fact(f);
    let none = Seq::<CauseView<T>>::empty();
    assert(eval(root, ctx, fresh(), 1) is Some);
    lemma_evaluation(root, ctx, fresh(), 1);
    let memo = evaluation(root, ctx, fresh()).memo;
    assert(memo == fresh::<T>().insert(root, None).insert(root, Some(CheckView::Fail(none))));
    assert(memo[root] == Some(CheckView::Fail(none)));
    let depth = memo.dom().len();
    assert(walk_stack(memo, none, (depth - 1) as nat) =~= none);
    assert(trail(memo, root) =~= seq![root]);
    lemma_filter_one(root, failed(memo));
    lemma_filter_one(root, passed(memo));
    lemma_distinct_small(root);
    assert(failures_of(memo, root) == seq![root]);
    assert(passes_of(memo, root) == none);
    let nodes = seq![root];
    reveal_with_fuel(links, 2);
    assert(links_from(nodes, root, none) =~= Seq::<(CauseView<T>, CauseView<T>)>::empty()) by {
        assert(none.filter(|c: CauseView<T>| nodes.contains(c)) =~= none) by {
            reveal(Seq::filter);
        }
    }
    assert(explained_by(memo, root) == none);
    assert(links(memo, nodes, 1) =~= Seq::<(CauseView<T>, CauseView<T>)>::empty());
}

/// Filtering drops everything if nothing meets the condition.
pub proof fn lemma_filter_none<A>(s: Seq<A>, pred: spec_fn(A) -> bool)
    requires
        forall|j: int| 0 <= j < s.len() ==> !pred(#[trigger] s[j]),
    ensures
        s.filter(pred) == Seq::<A>::empty(),
    decreases s.len(),
{
    if s.len() == 0 {
        assert(s.filter(pred) =~= Seq::<A>::empty()) by {
            reveal(Seq::filter);
        }
    } else {
        let front = s.drop_last();
        assert forall|j: int| 0 <= j < front.len() implies !pred(#[trigger] front[j]) by {
            assert(front[j] == s[j]);
        }
        lemma_filter_none(front, pred);
        front.lemma_filter_push(s.last(), pred);
        assert(front.push(s.last()) =~= s);
    }
}

/// There are no edges from a node to causes of which none is a node.
pub proof fn lemma_links_from_strangers<T>(
    nodes: Seq<CauseView<T>>,
    k: CauseView<T>,
    targets: Seq<CauseView<T>>,
)
    requires
        forall|j: int| 0 <= j < targets.len() ==> !nodes.contains(#[trigger] targets[j]),
    ensures
        links_from(nodes, k, targets) == Seq::<(CauseView<T>, CauseView<T>)>::empty(),
{
    lemma_filter_none(targets, |c: CauseView<T>| nodes.contains(c));
    assert(links_from(nodes, k, targets) =~= Seq::<(CauseView<T>, CauseView<T>)>::empty());
}

/// A false fact that is explained by a true fact fails. The graph is the
/// false fact alone, and the true fact is the one pass.
pub proof fn law_true_explanation_ends_the_search<T: Fact>(a: T, b: T, ctx: T::Context)
    requires
        !a.holds(&ctx),
        b.holds(&ctx),
        a.reason(&ctx) == Some(CauseView::Fact(b)),
    ensures
        terminates(CauseView::Fact(a), ctx, fresh()),
        forall|t: Traversal<T>|
            diagnoses(t, CauseView::Fact(a), evaluation(CauseView::Fact(a), ctx, fresh()))
                ==> match t {
                Traversal::Fail { graph, passes } => {
                    &&& graph@.nodes == seq![CauseView::Fact(a)]
                    &&& graph@.edges == Seq::<(CauseView<T>, CauseView<T>)>::empty()
                    &&& views(passes@) == seq![CauseView::Fact(b)]
                },
                _ => false,
            },
{
    let ca = CauseView::Fact(a);
    let cb = CauseView::Fact(b);
    let none = Seq::<CauseView<T>>::empty();
    assert(ca != cb);
    reveal_with_fuel(eval, 2);
    assert(eval(ca, ctx, fresh(), 2) is Some);
    lemma_evaluation(ca, ctx, fresh(), 2);
    let memo = evaluation(ca, ctx, fresh()).memo;
    let fail = CheckView::Fail(seq![cb]);
    assert(memo == fresh::<T>().insert(ca, None).insert(cb, Some(CheckView::Pass)).insert(
        ca,
        Some(fail),
    ));
    assert(memo[ca] == Some(fail));
    assert(memo[cb] == Some(CheckView::<T>::Pass));
    assert(memo.dom() =~= set![ca, cb]);
    assert(memo.dom().len() == 2);
    assert(seq![cb].last() == cb);
    assert(seq![cb].drop_last() =~= none);
    assert(walk_stack(memo, none, 1) =~= none);
    assert(walk(memo, cb, 1) =~= seq![cb]);
    assert(walk_stack(memo, seq![cb], 1) =~= seq![cb]);
    assert(trail(memo, ca) =~= seq![ca, cb]);
    lemma_filter_two(ca, cb, failed(memo));
    lemma_filter_two(ca, cb, passed(memo));
    lemma_filter_one(ca, failed(memo));
    lemma_filter_one(cb, failed(memo));
    lemma_filter_one(ca, passed(memo));
    lemma_filter_one(cb, passed(memo));
    assert(seq![ca, cb].filter(failed(memo)) =~= seq![ca]);
    assert(seq![ca, cb].filter(passed(memo)) =~= seq![cb]);
    lemma_distinct_small(ca);
    assert(failures_of(memo, ca) == seq![ca]);
    assert(passes_of(memo, ca) == seq![cb]);
    let nodes = seq![ca];
    reveal_with_fuel(links, 2);
    assert(explained_by(memo, ca) == seq![cb]);
    assert(!nodes.contains(cb));
    lemma_links_from_strangers(nodes, ca, seq![cb]);
    assert(links(memo, nodes, 1) =~= Seq::<(CauseView<T>, CauseView<T>)>::empty());
}

/// A true fact that has not been visited settles as a pass, at once.
pub proof fn lemma_eval_true_fact<T: Fact>(f: T, ctx: T::Context, memo: Memo<T>)
    requires
        f.holds(&ctx),
        !memo.dom().contains(CauseView::Fact(f)),
    ensures
        eval(CauseView::Fact(f), ctx, memo, 1) == Some(
            Outcome {
                check: Some(CheckView::Pass),
                memo: memo.insert(CauseView::Fact(f), Some(CheckView::Pass)),
            },
        ),
{
    let c = CauseView::Fact(f);
    assert(memo.insert(c, None).insert(c, Some(CheckView::Pass)) =~= memo.insert(
        c,
        Some(CheckView::Pass),
    ));
}

/// A false fact without explanation that has not been visited settles as a
/// failure that nothing explains, at once.
pub proof fn lemma_eval_false_axiom<T: Fact>(f: T, ctx: T::Context, memo: Memo<T>)
    requires
        !f.holds(&ctx),
        f.reason(&ctx) is None,
        !memo.dom().contains(CauseView::Fact(f)),
    ensures
        eval(CauseView::Fact(f), ctx, memo, 1) == Some(
            Outcome {
                check: Some(CheckView::Fail(Seq::empty())),
                memo: memo.insert(CauseView::Fact(f), Some(CheckView::Fail(Seq::empty()))),
            },
        ),
{
    let c = CauseView::Fact(f);
    let fail = CheckView::<T>::Fail(Seq::empty());
    assert(memo.insert(c, None).insert(c, Some(fail)) =~= memo.insert(c, Some(fail)));
}

/// Evaluating a true fact and then a false fact without explanation gives
/// both, with their checks.
pub proof fn lemma_eval_pass_then_fail<T: Fact>(y: T, z: T, ctx: T::Context, memo: Memo<T>)
    requires
        y.holds(&ctx),
        !z.holds(&ctx),
        z.reason(&ctx) is None,
        !memo.dom().contains(CauseView::Fact(y)),
        !memo.dom().contains(CauseView::Fact(z)),
    ensures
        eval_each(seq![CauseView::Fact(y), CauseView::Fact(z)], ctx, memo, 1) == Some(
            crate::eval::Survivors {
                seen: seq![
                    (CauseView::Fact(y), CheckView::Pass),
                    (CauseView::Fact(z), CheckView::Fail(Seq::empty())),
                ],
                memo: memo.insert(CauseView::Fact(y), Some(CheckView::Pass)).insert(
                    CauseView::Fact(z),
                    Some(CheckView::Fail(Seq::empty())),
                ),
            },
        ),
{
    let cy = CauseView::Fact(y);
    let cz = CauseView::Fact(z);
    let cs = seq![cy, cz];
    let m1 = memo.insert(cy, Some(CheckView::Pass));
    let m2 = m1.insert(cz, Some(CheckView::Fail(Seq::empty())));
    lemma_eval_true_fact(y, ctx, memo);
    lemma_eval_false_axiom(z, ctx, m1);
    assert(cs.drop_first() =~= seq![cz]);
    assert(seq![cz].drop_first() =~= Seq::<CauseView<T>>::empty());
    assert(eval_each(seq![cz].drop_first(), ctx, m2, 1) == Some(
        crate::eval::Survivors { seen: Seq::empty(), memo: m2 },
    ));
    let last = eval_each(seq![cz], ctx, m1, 1);
    assert(last is Some);
    assert(last->0.memo == m2);
    assert(last->0.seen =~= seq![(cz, CheckView::<T>::Fail(Seq::empty()))]);
    let both = eval_each(cs, ctx, memo, 1);
    assert(both is Some);
    assert(both->0.memo == m2);
    assert(both->0.seen =~= seq![
        (cy, CheckView::<T>::Pass),
        (cz, CheckView::<T>::Fail(Seq::empty())),
    ]);
}

/// The trail over a memo in which `root` failed because of a pass `y` and a
/// failure `z` that nothing explains: the root, then `z`, then `y`.
pub proof fn lemma_trail_pass_and_fail<T>(
    memo: Memo<T>,
    root: CauseView<T>,
    y: CauseView<T>,
    z: CauseView<T>,
)
    requires
        memo.dom().len() >= 1,
        memo.dom().contains(root),
        memo.dom().contains(y),
        memo.dom().contains(z),
        memo[root] == Some(CheckView::Fail(seq![y, z])),
        memo[y] == Some(CheckView::<T>::Pass),
        memo[z] == Some(CheckView::<T>::Fail(Seq::empty())),
    ensures
        trail(memo, root) == seq![root, z, y],
{
    let none = Seq::<CauseView<T>>::empty();
    let cs = seq![y, z];
    let depth = (memo.dom().len() - 1) as nat;
    assert(walk_stack(memo, none, depth) == none);
    assert(walk(memo, y, depth) == seq![y]);
    assert(walk(memo, z, depth) =~= seq![z]) by {
        if depth > 0 {
            assert(walk_stack(memo, none, (depth - 1) as nat) == none);
        }
    }
    assert(cs.last() == z);
    assert(cs.drop_last() =~= seq![y]);
    assert(seq![y].last() == y);
    assert(seq![y].drop_last() =~= none);
    assert(walk_stack(memo, seq![y], depth) =~= seq![y]);
    assert(walk_stack(memo, cs, depth) =~= seq![z, y]);
    assert(seq![root] + seq![z, y] =~= seq![root, z, y]);
}

/// Filtering three elements of which the first two meet the condition.
pub proof fn lemma_filter_first_two<A>(a: A, b: A, c: A, pred: spec_fn(A) -> bool)
    requires
        pred(a),
        pred(b),
        !pred(c),
    ensures
        seq![a, b, c].filter(pred) == seq![a, b],
{
    let none = Seq::<A>::empty();
    assert(none.filter(pred) == none) by {
        reveal(Seq::filter);
    }
    none.lemma_filter_push(a, pred);
    none.push(a).lemma_filter_push(b, pred);
    none.push(a).push(b).lemma_filter_push(c, pred);
    assert(none.push(a).push(b).push(c) =~= seq![a, b, c]);
    assert(none.push(a).push(b) =~= seq![a, b]);
    assert(none.push(c) =~= seq![c]);
}

/// Filtering three elements of which only the last meets the condition.
pub proof fn lemma_filter_last<A>(a: A, b: A, c: A, pred: spec_fn(A) -> bool)
    requires
        !pred(a),
        !pred(b),
        pred(c),
    ensures
        seq![a, b, c].filter(pred) == seq![c],
{
    let none = Seq::<A>::empty();
    assert(none.filter(pred) == none) by {
        reveal(Seq::filter);
    }
    none.lemma_filter_push(a, pred);
    none.push(a).lemma_filter_push(b, pred);
    none.push(a).push(b).lemma_filter_push(c, pred);
    assert(none.push(a).push(b).push(c) =~= seq![a, b, c]);
    assert(none.push(a).push(b) =~= seq![a, b]);
    assert(none.push(c) =~= seq![c]);
}

/// The walk over a memo in which `root` failed because of a pass `y` and a
/// failure `z` that nothing explains.
pub proof fn lemma_walk_pass_and_fail<T>(
    memo: Memo<T>,
    root: CauseView<T>,
    y: CauseView<T>,
    z: CauseView<T>,
)
    requires
        memo.dom().len() >= 1,
        memo.dom().contains(root),
        memo.dom().contains(y),
        memo.dom().contains(z),
        memo[root] == Some(CheckView::Fail(seq![y, z])),
        memo[y] == Some(CheckView::<T>::Pass),
        memo[z] == Some(CheckView::<T>::Fail(Seq::empty())),
        root != z,
    ensures
        failures_of(memo, root) == seq![root, z],
        passes_of(memo, root) == seq![y],
        links(memo, seq![root, z], 2) == seq![(root, z)],
{
    lemma_trail_pass_and_fail(memo, root, y, z);
    lemma_filter_first_two(root, z, y, failed(memo));
    lemma_filter_last(root, z, y, passed(memo));
    lemma_distinct_two(root, z);
    lemma_links_root_to_fail(memo, root, y, z);
}

/// The edges of the graph of `root` and `z`, where `root` is explained by
/// `y`, which is no node, and `z`, which nothing explains.
pub proof fn lemma_links_root_to_fail<T>(
    memo: Memo<T>,
    root: CauseView<T>,
    y: CauseView<T>,
    z: CauseView<T>,
)
    requires
        memo[root] == Some(CheckView::Fail(seq![y, z])),
        memo[y] == Some(CheckView::<T>::Pass),
        memo[z] == Some(CheckView::<T>::Fail(Seq::empty())),
        root != z,
    ensures
        links(memo, seq![root, z], 2) == seq![(root, z)],
{
    let none = Seq::<CauseView<T>>::empty();
    let cs = seq![y, z];
    let nodes = seq![root, z];
    let is_node = |c: CauseView<T>| nodes.contains(c);
    assert(nodes[0] == root && nodes[1] == z);
    assert(nodes.contains(z));
    assert(y != root && y != z);
    assert(!nodes.contains(y));
    lemma_filter_two(y, z, is_node);
    lemma_filter_one(y, is_node);
    lemma_filter_one(z, is_node);
    assert(cs.filter(is_node) =~= seq![z]);
    assert(links_from(nodes, root, cs) =~= seq![(root, z)]);
    lemma_links_from_strangers(nodes, z, none);
    reveal_with_fuel(links, 3);
    assert(explained_by(memo, root) == cs);
    assert(explained_by(memo, z) == none);
    assert(links(memo, nodes, 2) =~= seq![(root, z)]);
}

/// `Every` of a true fact and a false fact without explanation fails, and
/// what is recorded as its explanation is both facts, the true one included.
/// The graph holds `Every` and the false fact, with one edge between them,
/// and the true fact is the one pass.
pub proof fn law_every_fails_with_all_children<T: Fact>(y: T, z: T, ctx: T::Context)
    requires
        y.holds(&ctx),
        !z.holds(&ctx),
        z.reason(&ctx) is None,
    ensures
        ({
            let cy = CauseView::Fact(y);
            let cz = CauseView::Fact(z);
            let root = CauseView::Every(seq![cy, cz]);
            let outcome = evaluation(root, ctx, fresh());
            &&& terminates(root, ctx, fresh())
            &&& outcome.check == Some(CheckView::Fail(seq![cy, cz]))
            &&& outcome.memo[root] == Some(CheckView::Fail(seq![cy, cz]))
            &&& forall|t: Traversal<T>|
                diagnoses(t, root, outcome) ==> match t {
                    Traversal::Fail { graph, passes } => {
                        &&& graph@.nodes == seq![root, cz]
                        &&& graph@.edges == seq![(root, cz)]
                        &&& views(passes@) == seq![cy]
                    },
                    _ => false,
                }
        }),
{
    let cy = CauseView::Fact(y);
    let cz = CauseView::Fact(z);
    let cs = seq![cy, cz];
    let root = CauseView::Every(cs);
    let marked = fresh::<T>().insert(root, None);
    lemma_eval_pass_then_fail(y, z, ctx, marked);
    let below = eval_each(cs, ctx, marked, 1)->0;
    assert(below.seen[1].1 is Fail);
    assert(crate::eval::causes_of(below.seen) =~= cs);
    let fail_root = CheckView::Fail(cs);
    assert(crate::eval::every_check(below.seen) == fail_root);
    assert(eval(root, ctx, fresh(), 2) == Some(
        Outcome { check: Some(fail_root), memo: below.memo.insert(root, Some(fail_root)) },
    ));
    lemma_evaluation(root, ctx, fresh(), 2);
    let memo = evaluation(root, ctx, fresh()).memo;
    assert(memo.dom() =~= set![root, cy, cz]);
    assert(memo.dom().len() >= 1);
    lemma_walk_pass_and_fail(memo, root, cy, cz);
}

/// Every node of the graph of a failure has settled as a failure in the
/// memo, and every pass has settled as a pass.
pub proof fn law_nodes_have_settled<T>(t: Traversal<T>, root: CauseView<T>, outcome: Outcome<T>)
    requires
        diagnoses(t, root, outcome),
    ensures
        match t {
            Traversal::Fail { graph, passes } => {
                &&& forall|i: int|
                    0 <= i < graph@.nodes.len() ==> failed(outcome.memo)(#[trigger] graph@.nodes[i])
                &&& forall|i: int|
                    0 <= i < passes.len() ==> passed(outcome.memo)(#[trigger] views(passes@)[i])
            },
            _ => true,
        },
{
    match t {
        Traversal::Fail { graph, passes } => {
            let memo = outcome.memo;
            let met = trail(memo, root);
            lemma_distinct(met.filter(failed(memo)));
            assert forall|i: int| 0 <= i < graph@.nodes.len() implies failed(memo)(
                #[trigger] graph@.nodes[i],
            ) by {
                let k = graph@.nodes[i];
                let kept = met.filter(failed(memo));
                assert(distinct(kept)[i] == k);
                assert(distinct(kept).contains(k));
                assert(kept.contains(k));
                let j = kept.index_of(k);
                assert(kept[j] == k);
                met.lemma_filter_pred(failed(memo), j);
            }
            assert forall|i: int| 0 <= i < passes.len() implies passed(memo)(
                #[trigger] views(passes@)[i],
            ) by {
                met.lemma_filter_pred(passed(memo), i);
            }
        },
        _ => {},
    }
}

/// Two contexts give every fact the same answers.
pub open spec fn same_answers<T: Fact>(ctx: T::Context, other: T::Context) -> bool {
    forall|f: T|
        #![trigger f.holds(&ctx)]
        #![trigger f.reason(&ctx)]
        f.holds(&ctx) == f.holds(&other) && f.reason(&ctx) == f.reason(&other)
}

/// Evaluation depends on the context only through the answers of the facts.
pub proof fn lemma_eval_same_answers<T: Fact>(
    c: CauseView<T>,
    ctx: T::Context,
    other: T::Context,
    memo: Memo<T>,
    fuel: nat,
)
    requires
        same_answers::<T>(ctx, other),
    ensures
        eval(c, ctx, memo, fuel) == eval(c, other, memo, fuel),
    decreases fuel, 0nat,
{
    if !memo.dom().contains(c) && fuel > 0 {
        let marked = memo.insert(c, None);
        match c {
            CauseView::Fact(f) => {
                assert(f.holds(&ctx) == f.holds(&other));
                assert(f.reason(&ctx) == f.reason(&other));
                if !f.holds(&ctx) {
                    match f.reason(&ctx) {
                        None => {},
                        Some(sub) => {
                            lemma_eval_same_answers(sub, ctx, other, marked, (fuel - 1) as nat);
                        },
                    }
                }
            },
            CauseView::Any(cs) => {
                lemma_eval_each_same_answers(cs, ctx, other, marked, (fuel - 1) as nat);
            },
            CauseView::Every(cs) => {
                lemma_eval_each_same_answers(cs, ctx, other, marked, (fuel - 1) as nat);
            },
        }
    }
}

/// Evaluation of a list depends on the context only through the answers of
/// the facts.
pub proof fn lemma_eval_each_same_answers<T: Fact>(
    cs: Seq<CauseView<T>>,
    ctx: T::Context,
    other: T::Context,
    memo: Memo<T>,
    fuel: nat,
)
    requires
        same_answers::<T>(ctx, other),
    ensures
        eval_each(cs, ctx, memo, fuel) == eval_each(cs, other, memo, fuel),
    decreases fuel, cs.len() + 1,
{
    if cs.len() > 0 {
        lemma_eval_same_answers(cs[0], ctx, other, memo, fuel);
        match eval(cs[0], ctx, memo, fuel) {
            None => {},
            Some(first) => {
                lemma_eval_each_same_answers(cs.drop_first(), ctx, other, first.memo, fuel);
            },
        }
    }
}

/// Traversing the same cause twice, against contexts that give every fact
/// the same answers, comes to the same: both traversals pass, or both are
/// groundless, or both fail with the same nodes, the same edges and the same
/// passes.
pub proof fn law_traversals_agree<T: Fact>(
    first: Traversal<T>,
    second: Traversal<T>,
    root: CauseView<T>,
    ctx: T::Context,
    other: T::Context,
)
    requires
        same_answers::<T>(ctx, other),
        terminates(root, ctx, fresh()),
        diagnoses(first, root, evaluation(root, ctx, fresh())),
        diagnoses(second, root, evaluation(root, other, fresh())),
    ensures
        terminates(root, other, fresh()),
        first is Pass <==> second is Pass,
        first is Groundless <==> second is Groundless,
        match (first, second) {
            (
                Traversal::Fail { graph, passes },
                Traversal::Fail { graph: other_graph, passes: other_passes },
            ) => {
                &&& graph@.nodes == other_graph@.nodes
                &&& graph@.edges == other_graph@.edges
                &&& views(passes@) == views(other_passes@)
            },
            _ => !(first is Fail) && !(second is Fail),
        },
{
    let fuel = choose|fuel: nat| (#[trigger] eval(root, ctx, fresh(), fuel)) is Some;
    lemma_eval_same_answers(root, ctx, other, fresh(), fuel);
    lemma_evaluation(root, ctx, fresh(), fuel);
    lemma_evaluation(root, other, fresh(), fuel);
}

/// Filtering keeps a first element that meets the condition first.
pub proof fn lemma_filter_keeps_first<A>(s: Seq<A>, pred: spec_fn(A) -> bool)
    requires
        s.len() > 0,
        pred(s[0]),
    ensures
        s.filter(pred).len() > 0,
        s.filter(pred)[0] == s[0],
    decreases s.len(),
{
    let front = s.drop_last();
    front.lemma_filter_push(s.last(), pred);
    assert(front.push(s.last()) =~= s);
    if front.len() == 0 {
        assert(front.filter(pred) =~= Seq::<A>::empty()) by {
            reveal(Seq::filter);
        }
    } else {
        lemma_filter_keeps_first(front, pred);
    }
}

/// `distinct` keeps the first element first.
pub proof fn lemma_distinct_keeps_first<A>(s: Seq<A>)
    requires
        s.len() > 0,
    ensures
        distinct(s).len() > 0,
        distinct(s)[0] == s[0],
    decreases s.len(),
{
    let front = s.drop_last();
    if front.len() > 0 {
        lemma_distinct_keeps_first(front);
        assert(front[0] == s[0]);
    } else {
        assert(distinct(front) =~= Seq::<A>::empty());
        assert(distinct(s) =~= seq![s.last()]);
    }
}

/// The graph of a failure starts at the cause that was traversed: it is the
/// first node.
pub proof fn law_graph_starts_at_the_root<T: Fact>(
    t: Traversal<T>,
    root: CauseView<T>,
    ctx: T::Context,
)
    requires
        terminates(root, ctx, fresh()),
        diagnoses(t, root, evaluation(root, ctx, fresh())),
    ensures
        match t {
            Traversal::Fail { graph, passes } => graph@.nodes.len() > 0 && graph@.nodes[0] == root,
            _ => true,
        },
{
    match t {
        Traversal::Fail { graph, passes } => {
            let fuel = choose|fuel: nat| (#[trigger] eval(root, ctx, fresh(), fuel)) is Some;
            lemma_evaluation(root, ctx, fresh(), fuel);
            lemma_eval_keeps(root, ctx, fresh(), fuel);
            let memo = evaluation(root, ctx, fresh()).memo;
            assert(failed(memo)(root));
            let met = trail(memo, root);
            assert(met.len() > 0 && met[0] == root);
            lemma_filter_keeps_first(met, failed(memo));
            lemma_distinct_keeps_first(met.filter(failed(memo)));
        },
        _ => {},
    }
}

/// Every edge of the graph of a failure leads from a node to a node that is
/// among the causes recorded as its explanation; every failure among the
/// causes that explain a node is a node; and following edges never leads
/// round in a circle.
pub proof fn law_edges_follow_explanations<T>(
    t: Traversal<T>,
    root: CauseView<T>,
    outcome: Outcome<T>,
)
    requires
        diagnoses(t, root, outcome),
    ensures
        match t {
            Traversal::Fail { graph, passes } => {
                &&& forall|e: int|
                    0 <= e < graph@.edges.len() ==> follows(
                        outcome.memo,
                        graph@.nodes,
                        #[trigger] graph@.edges[e],
                    )
                &&& crate::walk::explains_all(outcome.memo, graph@.nodes)
                &&& crate::graph::acyclic(graph@)
            },
            _ => true,
        },
{
    match t {
        Traversal::Fail { graph, passes } => {
            assert forall|e: int| 0 <= e < graph@.edges.len() implies follows(
                outcome.memo,
                graph@.nodes,
                #[trigger] graph@.edges[e],
            ) by {
                lemma_links_follow(outcome.memo, graph@.nodes, graph@.nodes.len(), e);
            }
        },
        _ => {},
    }
}

/// The check that a fact ought to get: a pass if it holds, and otherwise a
/// failure that names what explains it, if anything does.
pub open spec fn fact_check<T: Fact>(f: T, ctx: T::Context) -> CheckView<T> {
    if f.holds(&ctx) {
        CheckView::Pass
    } else {
        match f.reason(&ctx) {
            Some(sub) => CheckView::Fail(seq![sub]),
            None => CheckView::Fail(Seq::empty()),
        }
    }
}

/// The check of a fact depends on the fact alone, never on how the cause
/// that explains it fares: whenever evaluating a fact that has not been
/// visited produces a check, it is the check that the fact ought to get.
pub proof fn law_fact_is_checked_on_its_own<T: Fact>(
    f: T,
    ctx: T::Context,
    memo: Memo<T>,
    fuel: nat,
)
    requires
        !memo.dom().contains(CauseView::Fact(f)),
        eval(CauseView::Fact(f), ctx, memo, fuel) is Some,
        eval(CauseView::Fact(f), ctx, memo, fuel)->0.check is Some,
    ensures
        eval(CauseView::Fact(f), ctx, memo, fuel)->0.check == Some(fact_check(f, ctx)),
{
}

} // verus!
