use aitia::graph::{produce_graph, traverse, CausalGraph, Traversal};
use aitia::evaluate::traverse_inner;
use aitia::prune::prune_traversal;
use aitia::table::TraversalMap;
use aitia::{Cause, Check, Fact};
use std::cell::Cell;

/// A fact known by its name. The context says which facts are true and what
/// explains each.
#[derive(Clone, Debug, PartialEq, Eq)]
struct Named(&'static str);

struct World {
    truths: Vec<&'static str>,
    causes: Vec<(&'static str, Cause<Named>)>,
    checks: Cell<usize>,
}

impl World {
    fn new(truths: &[&'static str], causes: Vec<(&'static str, Cause<Named>)>) -> Self {
        World { truths: truths.to_vec(), causes, checks: Cell::new(0) }
    }
}

impl Fact for Named {
    type Context = World;

    fn check(&self, ctx: &World) -> bool {
        ctx.checks.set(ctx.checks.get() + 1);
        ctx.truths.contains(&self.0)
    }

    fn cause(&self, ctx: &World) -> Option<Cause<Named>> {
        ctx.causes.iter().find(|(name, _)| *name == self.0).map(|(_, c)| c.clone())
    }
}

fn fact(name: &'static str) -> Cause<Named> {
    Cause::Fact(Named(name))
}

fn failure(t: Traversal<Named>) -> (CausalGraph<Named>, Vec<Cause<Named>>) {
    match t.fail() {
        Some(found) => found,
        None => panic!("the traversal did not fail"),
    }
}

#[test]
fn true_fact_passes() {
    let world = World::new(&["x"], vec![]);
    assert!(matches!(traverse(&fact("x"), &world), Traversal::Pass));
}

#[test]
fn true_fact_with_a_cause_passes() {
    let world = World::new(&["x"], vec![("x", fact("y"))]);
    assert!(matches!(traverse(&fact("x"), &world), Traversal::Pass));
    assert_eq!(world.checks.get(), 1);
}

#[test]
fn false_axiom_is_the_only_node() {
    let world = World::new(&[], vec![]);
    let (graph, passes) = failure(traverse(&fact("x"), &world));
    assert_eq!(graph.nodes(), vec![fact("x")]);
    assert_eq!(graph.node_count(), 1);
    assert_eq!(graph.edges(), vec![]);
    assert_eq!(graph.edge_count(), 0);
    assert_eq!(passes, vec![]);
}

#[test]
fn fact_that_explains_itself_is_groundless() {
    let world = World::new(&[], vec![("x", fact("x"))]);
    assert!(matches!(traverse(&fact("x"), &world), Traversal::Groundless));
}

#[test]
fn two_facts_that_explain_each_other_are_groundless() {
    let world = World::new(&[], vec![("a", fact("b")), ("b", fact("a"))]);
    assert!(matches!(traverse(&fact("a"), &world), Traversal::Groundless));
}

#[test]
fn cycle_broken_by_a_true_fact_fails_with_one_node() {
    let world = World::new(&["b"], vec![("a", fact("b")), ("b", fact("a"))]);
    let (graph, passes) = failure(traverse(&fact("a"), &world));
    assert_eq!(graph.nodes(), vec![fact("a")]);
    assert_eq!(graph.edges(), vec![]);
    assert_eq!(passes, vec![fact("b")]);
}

#[test]
fn any_passes_if_one_child_passes() {
    let world = World::new(&["y"], vec![]);
    let root = Cause::Any(vec![fact("y"), fact("z")]);
    assert!(matches!(traverse(&root, &world), Traversal::Pass));
    // Both children were evaluated.
    assert_eq!(world.checks.get(), 2);
}

#[test]
fn any_fails_with_the_children_that_failed() {
    let world = World::new(&[], vec![]);
    let root = Cause::Any(vec![fact("y"), fact("z")]);
    let mut table = TraversalMap::new();
    let check = traverse_inner(&root, &world, &mut table);
    assert_eq!(check, Some(Check::Fail(vec![fact("y"), fact("z")])));
    let (graph, passes) = failure(traverse(&root, &world));
    assert_eq!(graph.node_count(), 3);
    assert_eq!(graph.edge_count(), 2);
    assert!(graph.edges().contains(&(root.clone(), fact("y"))));
    assert!(graph.edges().contains(&(root.clone(), fact("z"))));
    assert_eq!(passes, vec![]);
}

#[test]
fn every_fails_with_all_its_children() {
    let world = World::new(&["y"], vec![]);
    let root = Cause::Every(vec![fact("y"), fact("z")]);
    let mut table = TraversalMap::new();
    let check = traverse_inner(&root, &world, &mut table);
    assert_eq!(check, Some(Check::Fail(vec![fact("y"), fact("z")])));
    assert_eq!(table.lookup(&root), Some(Some(&Check::Fail(vec![fact("y"), fact("z")]))));
    assert_eq!(table.lookup(&fact("y")), Some(Some(&Check::Pass)));
    assert_eq!(table.lookup(&fact("z")), Some(Some(&Check::Fail(vec![]))));

    let (graph, passes) = failure(traverse(&root, &world));
    assert_eq!(graph.nodes().len(), 2);
    assert!(graph.nodes().contains(&root));
    assert!(graph.nodes().contains(&fact("z")));
    assert_eq!(graph.edges(), vec![(root.clone(), fact("z"))]);
    assert_eq!(passes, vec![fact("y")]);
}

#[test]
fn every_passes_if_all_children_pass() {
    let world = World::new(&["y", "z"], vec![]);
    let root = Cause::Every(vec![fact("y"), fact("z")]);
    assert!(matches!(traverse(&root, &world), Traversal::Pass));
}

#[test]
fn chain_of_two_failures() {
    let world = World::new(&[], vec![("x", fact("y"))]);
    let (graph, passes) = failure(traverse(&fact("x"), &world));
    assert_eq!(graph.nodes().len(), 2);
    assert!(graph.nodes().contains(&fact("x")));
    assert!(graph.nodes().contains(&fact("y")));
    assert_eq!(graph.edges(), vec![(fact("x"), fact("y"))]);
    assert_eq!(passes, vec![]);
}

#[test]
fn traversing_twice_gives_the_same_shape() {
    let causes = vec![
        ("x", Cause::Every(vec![fact("a"), fact("b"), fact("c")])),
        ("a", fact("d")),
        ("b", Cause::Any(vec![fact("d"), fact("e")])),
    ];
    let world = World::new(&["c"], causes);
    let (first, first_passes) = failure(traverse(&fact("x"), &world));
    let (second, second_passes) = failure(traverse(&fact("x"), &world));
    let mut a = first.nodes();
    let mut b = second.nodes();
    assert_eq!(a.len(), b.len());
    for n in a.iter() {
        assert!(b.contains(n));
    }
    a.clear();
    b.clear();
    let ea = first.edges();
    let eb = second.edges();
    assert_eq!(ea.len(), eb.len());
    for e in ea.iter() {
        assert!(eb.contains(e));
    }
    assert_eq!(first_passes, second_passes);
}

#[test]
fn every_node_has_settled_as_a_failure() {
    let causes = vec![
        ("x", Cause::Any(vec![fact("a"), fact("loop"), fact("b")])),
        ("loop", fact("x")),
        ("a", fact("c")),
    ];
    let world = World::new(&["c"], causes);
    let root = fact("x");
    let mut table = TraversalMap::new();
    let check = traverse_inner(&root, &world, &mut table);
    assert!(matches!(check, Some(Check::Fail(_))));
    let (graph, passes) = produce_graph(&table, &root);
    assert!(graph.node_count() > 0);
    for node in graph.nodes().iter() {
        assert!(matches!(table.lookup(node), Some(Some(Check::Fail(_)))));
    }
    // The fact that only led back to the root never settled, and is no node.
    assert_eq!(table.lookup(&fact("loop")), Some(None));
    assert!(!graph.nodes().contains(&fact("loop")));
    assert_eq!(passes, vec![fact("c")]);
}

#[test]
fn any_whose_children_all_loop_is_groundless() {
    let any = Cause::Any(vec![fact("a"), fact("b")]);
    let causes = vec![("a", any.clone()), ("b", any.clone())];
    let world = World::new(&[], causes);
    assert!(matches!(traverse(&any, &world), Traversal::Groundless));
}

#[test]
fn empty_any_and_every_are_groundless() {
    let world = World::new(&[], vec![]);
    let any: Cause<Named> = Cause::Any(vec![]);
    let every: Cause<Named> = Cause::Every(vec![]);
    assert!(matches!(traverse(&any, &world), Traversal::Groundless));
    assert!(matches!(traverse(&every, &world), Traversal::Groundless));
}

#[test]
fn a_mark_that_was_left_behind_still_counts_as_a_loop() {
    // Evaluating `n` under `m` leads back to `m` and leaves `n` marked. When
    // `n` comes up again after `m` has settled, it is still dropped.
    let m = Cause::Any(vec![fact("n"), fact("z")]);
    let root = Cause::Every(vec![m.clone(), fact("n")]);
    let world = World::new(&[], vec![("n", m.clone())]);
    let mut table = TraversalMap::new();
    let check = traverse_inner(&root, &world, &mut table);
    assert_eq!(check, Some(Check::Fail(vec![m.clone()])));
    assert_eq!(table.lookup(&m), Some(Some(&Check::Fail(vec![fact("z")]))));
    assert_eq!(table.lookup(&fact("n")), Some(None));

    // In the other order `n` is evaluated first and settles.
    let root = Cause::Every(vec![fact("n"), m.clone()]);
    let mut table = TraversalMap::new();
    let check = traverse_inner(&root, &world, &mut table);
    assert_eq!(check, Some(Check::Fail(vec![fact("n"), m.clone()])));
    assert_eq!(table.lookup(&fact("n")), Some(Some(&Check::Fail(vec![m.clone()]))));
}

#[test]
fn a_settled_check_is_reused() {
    let causes = vec![("x", Cause::Every(vec![fact("a"), fact("a"), fact("a")]))];
    let world = World::new(&[], causes);
    let (graph, passes) = failure(traverse(&fact("x"), &world));
    // `x`, and `a` once.
    assert_eq!(world.checks.get(), 2);
    assert_eq!(graph.node_count(), 3);
    // One edge for each time `a` is named.
    let every = Cause::Every(vec![fact("a"), fact("a"), fact("a")]);
    assert_eq!(graph.edge_count(), 4);
    assert_eq!(
        graph.edges().iter().filter(|e| **e == (every.clone(), fact("a"))).count(),
        3
    );
    assert_eq!(passes, vec![]);
}

#[test]
fn a_pass_is_listed_each_time_the_walk_meets_it() {
    let causes = vec![
        ("x", Cause::Every(vec![fact("a"), fact("b")])),
        ("a", fact("ok")),
        ("b", fact("ok")),
    ];
    let world = World::new(&["ok"], causes);
    let (graph, passes) = failure(traverse(&fact("x"), &world));
    assert_eq!(graph.node_count(), 4);
    assert_eq!(passes, vec![fact("ok"), fact("ok")]);
}

#[test]
fn passes_come_in_the_order_of_the_walk() {
    // The walk takes the last explanation first.
    let world = World::new(&["p", "q"], vec![]);
    let root = Cause::Every(vec![fact("p"), fact("z"), fact("q")]);
    let (_, passes) = failure(traverse(&root, &world));
    assert_eq!(passes, vec![fact("q"), fact("p")]);
}

#[test]
fn pruning_lists_failures_with_their_explanations() {
    let world = World::new(&["y"], vec![("x", Cause::Every(vec![fact("y"), fact("z")]))]);
    let root = fact("x");
    let every = Cause::Every(vec![fact("y"), fact("z")]);
    let mut table = TraversalMap::new();
    traverse_inner(&root, &world, &mut table);
    let (rows, passes) = prune_traversal(&table, &root);
    assert_eq!(rows.len(), 3);
    assert_eq!(rows[0], (&root, &vec![every.clone()]));
    assert!(rows.contains(&(&every, &vec![fact("y"), fact("z")])));
    assert!(rows.contains(&(&fact("z"), &vec![])));
    assert_eq!(passes, vec![&fact("y")]);
}

#[test]
fn pruning_from_a_cause_that_was_never_visited_finds_nothing() {
    let table: TraversalMap<Named> = TraversalMap::new();
    let start = fact("x");
    let (rows, passes) = prune_traversal(&table, &start);
    assert!(rows.is_empty());
    assert!(passes.is_empty());
    let (graph, passes) = produce_graph(&table, &start);
    assert_eq!(graph.node_count(), 0);
    assert!(passes.is_empty());
}

#[test]
fn fail_returns_nothing_for_other_outcomes() {
    assert!(Traversal::<Named>::Pass.fail().is_none());
    assert!(Traversal::<Named>::Groundless.fail().is_none());
}

#[test]
fn graph_hands_back_what_was_added() {
    let mut graph: CausalGraph<Named> = CausalGraph::new();
    assert_eq!(graph.node_count(), 0);
    assert_eq!(graph.add_node(fact("a")), 0);
    assert_eq!(graph.add_node(fact("b")), 1);
    assert_eq!(graph.add_node(fact("c")), 2);
    graph.add_edge(0, 2);
    graph.add_edge(2, 1);
    graph.add_edge(2, 2);
    assert_eq!(graph.node_count(), 3);
    assert_eq!(graph.edge_count(), 3);
    assert_eq!(graph.node(1), &fact("b"));
    assert_eq!(graph.edge_ends(), vec![(0, 2), (2, 1), (2, 2)]);
    assert_eq!(graph.nodes(), vec![fact("a"), fact("b"), fact("c")]);
    assert_eq!(
        graph.edges(),
        vec![(fact("a"), fact("c")), (fact("c"), fact("b")), (fact("c"), fact("c"))]
    );
    let empty: CausalGraph<Named> = CausalGraph::default();
    assert_eq!(empty.node_count(), 0);
    assert_eq!(empty.edge_count(), 0);
}

#[test]
fn causes_compare_by_value() {
    assert_eq!(fact("a"), fact("a"));
    assert_ne!(fact("a"), fact("b"));
    assert_ne!(Cause::Any(vec![fact("a")]), Cause::Every(vec![fact("a")]));
    assert_ne!(Cause::Any(vec![fact("a")]), Cause::Any(vec![fact("a"), fact("a")]));
    assert_ne!(Cause::Any(vec![fact("a"), fact("b")]), Cause::Any(vec![fact("b"), fact("a")]));
    let deep = Cause::Every(vec![Cause::Any(vec![fact("a"), fact("b")]), fact("c")]);
    assert_eq!(deep.clone(), deep);
    assert_eq!(Check::Fail(vec![deep.clone()]).clone(), Check::Fail(vec![deep.clone()]));
    assert_ne!(Check::<Named>::Pass, Check::Fail(vec![]));
    assert!(Check::<Named>::Pass.is_pass());
    assert!(!Check::Fail(vec![fact("a")]).is_pass());
}
