//! The walk over a finished memo that yields the graph of failures.
//!
//! The walk starts at one cause and follows the explanations of every failed
//! cause it meets, last explanation first, as a stack hands them out. The
//! passes it meets, in order, and the failures it meets, each once, are what
//! a traversal reports.

use crate::cause::CauseView;
use crate::eval::{settled_in, Memo};
use crate::table::TraversalMap;
use vstd::prelude::*;

verus! {

/// The causes that settled and are met when walking from `k`, in the order
/// in which they are met. `depth` bounds how far explanations are followed.
pub open spec fn walk<T>(memo: Memo<T>, k: CauseView<T>, depth: nat) -> Seq<CauseView<T>>
    decreases depth, 0nat,
{
    if !settled_in(memo, k) {
        Seq::empty()
    } else {
        match memo[k]->0 {
            crate::cause::CheckView::Pass => seq![k],
            crate::cause::CheckView::Fail(explained) => if depth == 0 {
                seq![k]
            } else {
                seq![k] + walk_stack(memo, explained, (depth - 1) as nat)
            },
        }
    }
}

/// The causes met when walking from each cause of `stack` in turn, the last
/// one first.
pub open spec fn walk_stack<T>(memo: Memo<T>, stack: Seq<CauseView<T>>, depth: nat) -> Seq<
    CauseView<T>,
>
    decreases depth, stack.len() + 1,
{
    if stack.len() == 0 {
        Seq::empty()
    } else {
        walk(memo, stack.last(), depth) + walk_stack(memo, stack.drop_last(), depth)
    }
}

/// The whole walk from `start`. No chain of explanations in a memo is longer
/// than the memo.
pub open spec fn trail<T>(memo: Memo<T>, start: CauseView<T>) -> Seq<CauseView<T>> {
    walk(memo, start, memo.dom().len())
}

/// `k` settled as a pass.
pub open spec fn passed<T>(memo: Memo<T>) -> spec_fn(CauseView<T>) -> bool {
    |k: CauseView<T>| settled_in(memo, k) && memo[k]->0 is Pass
}

/// `k` settled as a failure.
pub open spec fn failed<T>(memo: Memo<T>) -> spec_fn(CauseView<T>) -> bool {
    |k: CauseView<T>| settled_in(memo, k) && memo[k]->0 is Fail
}

/// The passes met on the walk from `start`, in order, each as often as it is
/// met.
pub open spec fn passes_of<T>(memo: Memo<T>, start: CauseView<T>) -> Seq<CauseView<T>> {
    trail(memo, start).filter(passed(memo))
}

/// The elements of `s`, each once, in the order in which they first occur.
pub open spec fn distinct<A>(s: Seq<A>) -> Seq<A>
    decreases s.len(),
{
    if s.len() == 0 {
        Seq::empty()
    } else if distinct(s.drop_last()).contains(s.last()) {
        distinct(s.drop_last())
    } else {
        distinct(s.drop_last()).push(s.last())
    }
}

/// The failures met on the walk from `start`, each once, in the order in
/// which they are first met.
pub open spec fn failures_of<T>(memo: Memo<T>, start: CauseView<T>) -> Seq<CauseView<T>> {
    distinct(trail(memo, start).filter(failed(memo)))
}

/// `distinct` holds nothing twice, and holds what the sequence holds.
pub proof fn lemma_distinct<A>(s: Seq<A>)
    ensures
        distinct(s).no_duplicates(),
        forall|a: A| distinct(s).contains(a) <==> s.contains(a),
    decreases s.len(),
{
    if s.len() > 0 {
        let front = s.drop_last();
        lemma_distinct(front);
        let d = distinct(front);
        assert forall|a: A| distinct(s).contains(a) <==> s.contains(a) by {
            if s.contains(a) {
                let i = s.index_of(a);
                assert(s[i] == a);
                if i < front.len() {
                    assert(front[i] == a);
                    assert(front.contains(a));
                    let j = d.index_of(a);
                    assert(d[j] == a);
                    if !d.contains(s.last()) {
                        assert(d.push(s.last())[j] == a);
                    }
                } else {
                    assert(a == s.last());
                    if !d.contains(s.last()) {
                        assert(d.push(s.last())[d.len() as int] == a);
                    }
                }
            }
            if distinct(s).contains(a) {
                let j = distinct(s).index_of(a);
                assert(distinct(s)[j] == a);
                if j < d.len() {
                    assert(d[j] == a);
                    assert(d.contains(a));
                    assert(front.contains(a));
                    let i = front.index_of(a);
                    assert(front[i] == a);
                    assert(s[i] == a);
                } else {
                    assert(a == s.last());
                    assert(s[s.len() - 1] == a);
                }
            }
        }
    }
}

/// The causes that explain the failure of `k`.
pub open spec fn explained_by<T>(memo: Memo<T>, k: CauseView<T>) -> Seq<CauseView<T>> {
    memo[k]->0->Fail_0
}

/// The edges from `k` to those of `targets` that are among `nodes`, in the
/// order of `targets`.
pub open spec fn links_from<T>(
    nodes: Seq<CauseView<T>>,
    k: CauseView<T>,
    targets: Seq<CauseView<T>>,
) -> Seq<(CauseView<T>, CauseView<T>)> {
    targets.filter(|c: CauseView<T>| nodes.contains(c)).map_values(|c: CauseView<T>| (k, c))
}

/// The edges of the graph over `nodes`: from each of the first `n` nodes, in
/// order, to each of the causes that explain it and are nodes themselves.
pub open spec fn links<T>(memo: Memo<T>, nodes: Seq<CauseView<T>>, n: nat) -> Seq<
    (CauseView<T>, CauseView<T>),
>
    decreases n,
{
    if n == 0 || n > nodes.len() {
        Seq::empty()
    } else {
        links(memo, nodes, (n - 1) as nat) + links_from(
            nodes,
            nodes[n - 1],
            explained_by(memo, nodes[n - 1]),
        )
    }
}

/// `edge` leads from a node to a node that is among the causes that explain
/// the first.
pub open spec fn follows<T>(
    memo: Memo<T>,
    nodes: Seq<CauseView<T>>,
    edge: (CauseView<T>, CauseView<T>),
) -> bool {
    &&& nodes.contains(edge.0)
    &&& nodes.contains(edge.1)
    &&& explained_by(memo, edge.0).contains(edge.1)
}

/// Every edge from `k` leads to one of `targets` that is a node.
pub proof fn lemma_links_from_follow<T>(
    nodes: Seq<CauseView<T>>,
    k: CauseView<T>,
    targets: Seq<CauseView<T>>,
    e: int,
)
    requires
        0 <= e < links_from(nodes, k, targets).len(),
    ensures
        links_from(nodes, k, targets)[e].0 == k,
        nodes.contains(links_from(nodes, k, targets)[e].1),
        targets.contains(links_from(nodes, k, targets)[e].1),
{
    let is_node = |c: CauseView<T>| nodes.contains(c);
    let kept = targets.filter(is_node);
    let c = kept[e];
    targets.lemma_filter_pred(is_node, e);
    assert(kept.contains(c));
    targets.lemma_filter_contains_rev(is_node, c);
}

/// Every edge of the graph over `nodes` leads from a node to a node that is
/// among the causes that explain the first.
pub proof fn lemma_links_follow<T>(memo: Memo<T>, nodes: Seq<CauseView<T>>, n: nat, e: int)
    requires
        n <= nodes.len(),
        0 <= e < links(memo, nodes, n).len(),
    ensures
        follows(memo, nodes, links(memo, nodes, n)[e]),
    decreases n,
{
    if n > 0 {
        let before = links(memo, nodes, (n - 1) as nat);
        let k = nodes[n - 1];
        let last = links_from(nodes, k, explained_by(memo, k));
        if e < before.len() {
            lemma_links_follow(memo, nodes, (n - 1) as nat, e);
            assert(links(memo, nodes, n)[e] == before[e]);
        } else {
            lemma_links_from_follow(nodes, k, explained_by(memo, k), e - before.len());
            assert(links(memo, nodes, n)[e] == last[e - before.len()]);
            assert(nodes.contains(k));
        }
    }
}

/// The edges to the first `j + 1` targets are those to the first `j`, and one
/// more if the next target is a node.
pub proof fn lemma_links_from_next<T>(
    nodes: Seq<CauseView<T>>,
    k: CauseView<T>,
    targets: Seq<CauseView<T>>,
    j: int,
)
    requires
        0 <= j < targets.len(),
    ensures
        links_from(nodes, k, targets.take(j + 1)) == if nodes.contains(targets[j]) {
            links_from(nodes, k, targets.take(j)).push((k, targets[j]))
        } else {
            links_from(nodes, k, targets.take(j))
        },
{
    let is_node = |c: CauseView<T>| nodes.contains(c);
    let link = |c: CauseView<T>| (k, c);
    assert(targets.take(j + 1) =~= targets.take(j).push(targets[j]));
    targets.take(j).lemma_filter_push(targets[j], is_node);
    let kept = targets.take(j).filter(is_node);
    if nodes.contains(targets[j]) {
        assert(kept.push(targets[j]).map_values(link) =~= kept.map_values(link).push(
            (k, targets[j]),
        ));
    }
}

/// There are no edges to none of the targets.
pub proof fn lemma_links_from_none<T>(
    nodes: Seq<CauseView<T>>,
    k: CauseView<T>,
    targets: Seq<CauseView<T>>,
)
    ensures
        links_from(nodes, k, targets.take(0)) == Seq::<(CauseView<T>, CauseView<T>)>::empty(),
{
    let is_node = |c: CauseView<T>| nodes.contains(c);
    assert(targets.take(0).filter(is_node) =~= Seq::<CauseView<T>>::empty()) by {
        reveal(Seq::filter);
    }
    assert(links_from(nodes, k, targets.take(0)) =~= Seq::<(CauseView<T>, CauseView<T>)>::empty());
}

/// Walking from a stack continues with the stack that was put on top.
pub proof fn lemma_walk_stack_concat<T>(
    memo: Memo<T>,
    below: Seq<CauseView<T>>,
    above: Seq<CauseView<T>>,
    depth: nat,
)
    ensures
        walk_stack(memo, below + above, depth) == walk_stack(memo, above, depth) + walk_stack(
            memo,
            below,
            depth,
        ),
    decreases above.len(),
{
    if above.len() == 0 {
        assert(below + above =~= below);
        assert(walk_stack(memo, above, depth) + walk_stack(memo, below, depth) =~= walk_stack(
            memo,
            below,
            depth,
        ));
    } else {
        let whole = below + above;
        assert(whole.last() == above.last());
        assert(whole.drop_last() =~= below + above.drop_last());
        lemma_walk_stack_concat(memo, below, above.drop_last(), depth);
        assert(walk_stack(memo, whole, depth) =~= walk_stack(memo, above, depth) + walk_stack(
            memo,
            below,
            depth,
        ));
    }
}

/// Following explanations further than the place of a cause in the order of
/// settling adds nothing to the walk from it.
pub proof fn lemma_walk_deep_enough<T>(
    table: &TraversalMap<T>,
    k: CauseView<T>,
    depth: nat,
    deeper: nat,
)
    requires
        table.wf(),
        table.has_settled(k) ==> table.rank(k) <= depth,
        depth <= deeper,
    ensures
        walk(table@, k, deeper) == walk(table@, k, depth),
    decreases
            (if table.has_settled(k) {
                table.rank(k) + 1
            } else {
                0
            }),
            0nat,
{
    table.lemma_ranks();
    if table.has_settled(k) {
        match table@[k]->0 {
            crate::cause::CheckView::Pass => {},
            crate::cause::CheckView::Fail(explained) => {
                assert forall|j: int| 0 <= j < explained.len() implies table.has_settled(
                    #[trigger] explained[j],
                ) && table.rank(explained[j]) < table.rank(k) by {
                    table.lemma_explained_earlier(k, j);
                }
                if depth == 0 {
                    if explained.len() > 0 {
                        table.lemma_explained_earlier(k, 0);
                    }
                    if deeper > 0 {
                        assert(walk_stack(table@, explained, (deeper - 1) as nat) =~= Seq::<
                            CauseView<T>,
                        >::empty());
                        assert(walk(table@, k, deeper) =~= seq![k]);
                    }
                } else {
                    lemma_walk_stack_deep_enough(
                        table,
                        explained,
                        table.rank(k),
                        (depth - 1) as nat,
                        (deeper - 1) as nat,
                    );
                }
            },
        }
    }
}

/// Following explanations further adds nothing to the walk from a stack of
/// causes that all settled before place `bound`.
pub proof fn lemma_walk_stack_deep_enough<T>(
    table: &TraversalMap<T>,
    stack: Seq<CauseView<T>>,
    bound: int,
    depth: nat,
    deeper: nat,
)
    requires
        table.wf(),
        forall|j: int|
            0 <= j < stack.len() ==> table.has_settled(#[trigger] stack[j]) && table.rank(stack[j])
                < bound,
        bound <= depth + 1,
        depth <= deeper,
    ensures
        walk_stack(table@, stack, deeper) == walk_stack(table@, stack, depth),
    decreases bound, stack.len() + 1,
{
    table.lemma_ranks();
    if stack.len() > 0 {
        let top = stack.last();
        assert(table.has_settled(top) && table.rank(top) < bound);
        lemma_walk_deep_enough(table, top, depth, deeper);
        assert forall|j: int| 0 <= j < stack.drop_last().len() implies table.has_settled(
            #[trigger] stack.drop_last()[j],
        ) && table.rank(stack.drop_last()[j]) < bound by {
            assert(stack.drop_last()[j] == stack[j]);
        }
        lemma_walk_stack_deep_enough(table, stack.drop_last(), bound, depth, deeper);
    }
}

/// What holds while the walk from `start` is under way: `done` is what has
/// been met, `stack` is what is still to be walked from, `passes` are the
/// passes among `done`, and `keys` are the failures among `done`, each once.
pub open spec fn walking<T>(
    memo: Memo<T>,
    start: CauseView<T>,
    done: Seq<CauseView<T>>,
    stack: Seq<CauseView<T>>,
    passes: Seq<CauseView<T>>,
    keys: Seq<CauseView<T>>,
) -> bool {
    &&& done + walk_stack(memo, stack, memo.dom().len()) == trail(memo, start)
    &&& passes == done.filter(passed(memo))
    &&& keys == distinct(done.filter(failed(memo)))
}

/// What is left of the walk.
pub open spec fn left<T>(memo: Memo<T>, stack: Seq<CauseView<T>>) -> nat {
    walk_stack(memo, stack, memo.dom().len()).len()
}

/// The walk begins with `start` on the stack and nothing met.
pub proof fn lemma_walk_begins<T>(memo: Memo<T>, start: CauseView<T>)
    ensures
        walking(memo, start, Seq::empty(), seq![start], Seq::empty(), Seq::empty()),
{
    let none = Seq::<CauseView<T>>::empty();
    let depth = memo.dom().len();
    assert(none.filter(failed(memo)) =~= none && none.filter(passed(memo)) =~= none) by {
        reveal(Seq::filter);
    }
    assert(seq![start].drop_last() =~= none);
    assert(walk_stack(memo, none, depth) =~= none);
    assert(walk_stack(memo, seq![start], depth) =~= walk(memo, start, depth));
    assert(none + walk_stack(memo, seq![start], depth) =~= trail(memo, start));
}

/// The walk ends when the stack is empty: what was met is the whole trail.
pub proof fn lemma_walk_ends<T>(
    memo: Memo<T>,
    start: CauseView<T>,
    done: Seq<CauseView<T>>,
    passes: Seq<CauseView<T>>,
    keys: Seq<CauseView<T>>,
)
    requires
        walking(memo, start, done, Seq::empty(), passes, keys),
    ensures
        passes == passes_of(memo, start),
        keys == failures_of(memo, start),
{
    let none = Seq::<CauseView<T>>::empty();
    assert(walk_stack(memo, none, memo.dom().len()) =~= none);
    assert(done + none =~= done);
}

/// Taking a cause that never settled off the stack changes nothing.
pub proof fn lemma_walk_skips<T>(
    memo: Memo<T>,
    start: CauseView<T>,
    done: Seq<CauseView<T>>,
    rest: Seq<CauseView<T>>,
    k: CauseView<T>,
    passes: Seq<CauseView<T>>,
    keys: Seq<CauseView<T>>,
)
    requires
        walking(memo, start, done, rest.push(k), passes, keys),
        !settled_in(memo, k),
    ensures
        walking(memo, start, done, rest, passes, keys),
        left(memo, rest) == left(memo, rest.push(k)),
{
    let depth = memo.dom().len();
    let stack = rest.push(k);
    assert(stack.last() == k);
    assert(stack.drop_last() =~= rest);
    assert(walk(memo, k, depth) =~= Seq::<CauseView<T>>::empty());
    assert(walk_stack(memo, stack, depth) =~= walk_stack(memo, rest, depth));
}

/// Taking a pass off the stack adds it to what was met and to the passes.
pub proof fn lemma_walk_passes<T>(
    memo: Memo<T>,
    start: CauseView<T>,
    done: Seq<CauseView<T>>,
    rest: Seq<CauseView<T>>,
    k: CauseView<T>,
    passes: Seq<CauseView<T>>,
    keys: Seq<CauseView<T>>,
)
    requires
        walking(memo, start, done, rest.push(k), passes, keys),
        passed(memo)(k),
    ensures
        walking(memo, start, done.push(k), rest, passes.push(k), keys),
        left(memo, rest) < left(memo, rest.push(k)),
{
    let depth = memo.dom().len();
    let stack = rest.push(k);
    assert(stack.last() == k);
    assert(stack.drop_last() =~= rest);
    assert(walk(memo, k, depth) =~= seq![k]);
    assert(walk_stack(memo, stack, depth) =~= seq![k] + walk_stack(memo, rest, depth));
    assert(done.push(k) + walk_stack(memo, rest, depth) =~= done + walk_stack(
        memo,
        stack,
        depth,
    ));
    done.lemma_filter_push(k, failed(memo));
    done.lemma_filter_push(k, passed(memo));
}

/// Taking a failure off the stack adds it to what was met and to the
/// failures, unless it is among them already, and puts the causes that
/// explain it on the stack.
pub proof fn lemma_walk_fails<T>(
    table: &TraversalMap<T>,
    start: CauseView<T>,
    done: Seq<CauseView<T>>,
    rest: Seq<CauseView<T>>,
    k: CauseView<T>,
    passes: Seq<CauseView<T>>,
    keys: Seq<CauseView<T>>,
)
    requires
        table.wf(),
        walking(table@, start, done, rest.push(k), passes, keys),
        failed(table@)(k),
    ensures
        walking(
            table@,
            start,
            done.push(k),
            rest + explained_by(table@, k),
            passes,
            if keys.contains(k) {
                keys
            } else {
                keys.push(k)
            },
        ),
        left(table@, rest + explained_by(table@, k)) < left(table@, rest.push(k)),
{
    let memo = table@;
    let depth = memo.dom().len();
    let stack = rest.push(k);
    let explained = explained_by(memo, k);
    table.lemma_ranks();
    assert(table.has_settled(k));
    assert(depth > 0);
    assert forall|j: int| 0 <= j < explained.len() implies table.has_settled(
        #[trigger] explained[j],
    ) && table.rank(explained[j]) < table.rank(k) by {
        table.lemma_explained_earlier(k, j);
    }
    lemma_walk_stack_deep_enough(table, explained, table.rank(k), (depth - 1) as nat, depth);
    lemma_walk_stack_concat(memo, rest, explained, depth);
    assert(stack.last() == k);
    assert(stack.drop_last() =~= rest);
    assert(walk(memo, k, depth) == seq![k] + walk_stack(memo, explained, depth));
    let after = walk_stack(memo, rest + explained, depth);
    assert(walk_stack(memo, stack, depth) =~= seq![k] + after);
    assert(done.push(k) + after =~= done + walk_stack(memo, stack, depth));
    done.lemma_filter_push(k, failed(memo));
    done.lemma_filter_push(k, passed(memo));
    assert(done.filter(failed(memo)).push(k).drop_last() =~= done.filter(failed(memo)));
}

/// What is met on the walk from one cause of a stack is met on the walk
/// from the stack.
pub proof fn lemma_walk_in_stack<T>(
    memo: Memo<T>,
    stack: Seq<CauseView<T>>,
    depth: nat,
    i: int,
    x: CauseView<T>,
)
    requires
        0 <= i < stack.len(),
        walk(memo, stack[i], depth).contains(x),
    ensures
        walk_stack(memo, stack, depth).contains(x),
    decreases stack.len(),
{
    let top = walk(memo, stack.last(), depth);
    let rest = walk_stack(memo, stack.drop_last(), depth);
    if i == stack.len() - 1 {
        let at = top.index_of(x);
        assert(top[at] == x);
        assert((top + rest)[at] == x);
    } else {
        assert(stack.drop_last()[i] == stack[i]);
        lemma_walk_in_stack(memo, stack.drop_last(), depth, i, x);
        let at = rest.index_of(x);
        assert(rest[at] == x);
        assert((top + rest)[top.len() + at] == x);
    }
}

/// What is met on the walk from a stack is met on the walk from one of its
/// causes. Returns the place of that cause in the stack.
pub proof fn lemma_walk_from_stack<T>(
    memo: Memo<T>,
    stack: Seq<CauseView<T>>,
    depth: nat,
    x: CauseView<T>,
) -> (i: int)
    requires
        walk_stack(memo, stack, depth).contains(x),
    ensures
        0 <= i < stack.len(),
        walk(memo, stack[i], depth).contains(x),
    decreases stack.len(),
{
    let whole = walk_stack(memo, stack, depth);
    let at = whole.index_of(x);
    assert(whole[at] == x);
    assert(stack.len() > 0);
    let top = walk(memo, stack.last(), depth);
    let rest = walk_stack(memo, stack.drop_last(), depth);
    if at < top.len() {
        assert(top[at] == x);
        stack.len() - 1
    } else {
        assert(rest[at - top.len()] == x);
        let i = lemma_walk_from_stack(memo, stack.drop_last(), depth, x);
        assert(stack.drop_last()[i] == stack[i]);
        i
    }
}

/// The walk from a cause meets, with each failure, the causes that explain
/// it.
pub proof fn lemma_walk_closed<T>(
    table: &TraversalMap<T>,
    start: CauseView<T>,
    depth: nat,
    k: CauseView<T>,
    j: int,
)
    requires
        table.wf(),
        table.has_settled(start) ==> table.rank(start) <= depth,
        walk(table@, start, depth).contains(k),
        failed(table@)(k),
        0 <= j < explained_by(table@, k).len(),
    ensures
        walk(table@, start, depth).contains(explained_by(table@, k)[j]),
    decreases
            (if table.has_settled(start) {
                table.rank(start) + 1
            } else {
                0
            }),
{
    let memo = table@;
    let whole = walk(memo, start, depth);
    let at = whole.index_of(k);
    assert(whole[at] == k);
    table.lemma_ranks();
    assert(table.has_settled(start));
    let child = explained_by(memo, k)[j];
    match memo[start]->0 {
        crate::cause::CheckView::Pass => {
            assert(whole =~= seq![start]);
        },
        crate::cause::CheckView::Fail(explained) => {
            assert forall|i: int| 0 <= i < explained.len() implies table.has_settled(
                #[trigger] explained[i],
            ) && table.rank(explained[i]) < table.rank(start) by {
                table.lemma_explained_earlier(start, i);
            }
            if depth == 0 {
                // Nothing settled before `start`, so nothing explains it.
                assert(whole =~= seq![start]);
                assert(k == start);
                table.lemma_explained_earlier(start, j);
            } else {
                let below = walk_stack(memo, explained, (depth - 1) as nat);
                assert(whole == seq![start] + below);
                if at == 0 {
                    // The causes that explain `start` head their own walks.
                    assert(k == start);
                    assert(table.has_settled(child));
                    let own = walk(memo, child, (depth - 1) as nat);
                    assert(own.len() > 0 && own[0] == child);
                    lemma_walk_in_stack(memo, explained, (depth - 1) as nat, j, child);
                } else {
                    assert(below[at - 1] == k);
                    let i = lemma_walk_from_stack(memo, explained, (depth - 1) as nat, k);
                    lemma_walk_closed(table, explained[i], (depth - 1) as nat, k, j);
                    lemma_walk_in_stack(memo, explained, (depth - 1) as nat, i, child);
                }
                let found = below.index_of(child);
                assert(below[found] == child);
                assert(whole[found + 1] == child);
            }
        },
    }
}

/// The failures of a walk hold, with each failure, the failures among the
/// causes that explain it.
pub open spec fn explains_all<T>(memo: Memo<T>, nodes: Seq<CauseView<T>>) -> bool {
    forall|i: int, j: int|
        0 <= i < nodes.len() && 0 <= j < explained_by(memo, nodes[i]).len() && failed(memo)(
            #[trigger] explained_by(memo, nodes[i])[j],
        ) ==> nodes.contains(explained_by(memo, nodes[i])[j])
}

/// The failures met on a walk over a table hold, with each failure, the
/// failures among the causes that explain it.
pub proof fn lemma_failures_explain_all<T>(table: &TraversalMap<T>, start: CauseView<T>)
    requires
        table.wf(),
    ensures
        explains_all(table@, failures_of(table@, start)),
{
    let memo = table@;
    let met = trail(memo, start);
    let kept = met.filter(failed(memo));
    let nodes = failures_of(memo, start);
    lemma_distinct(kept);
    table.lemma_ranks();
    assert forall|i: int, j: int|
        0 <= i < nodes.len() && 0 <= j < explained_by(memo, nodes[i]).len() && failed(memo)(
            #[trigger] explained_by(memo, nodes[i])[j],
        ) implies nodes.contains(explained_by(memo, nodes[i])[j]) by {
        let k = nodes[i];
        let child = explained_by(memo, k)[j];
        assert(nodes.contains(k));
        assert(kept.contains(k));
        met.lemma_filter_contains_rev(failed(memo), k);
        let at = kept.index_of(k);
        assert(kept[at] == k);
        met.lemma_filter_pred(failed(memo), at);
        lemma_walk_closed(table, start, memo.dom().len(), k, j);
        let found = met.index_of(child);
        assert(met[found] == child);
        met.lemma_filter_contains(failed(memo), found);
    }
}

} // verus!
