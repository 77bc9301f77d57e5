//! Diagrams of the states that a state machine was seen in, and of the
//! actions that led from one to the next.

use crate::digraph::{
    edge_ends, graph_add_edge, graph_add_node, graph_edge_endpoints, graph_new, node_weights,
};
use petgraph::graph::Graph;
use petgraph::Directed;
use vstd::laws_eq::obeys_concrete_eq;
use vstd::prelude::*;

verus! {

/// A graph of the states seen on walks through a state machine. Each state
/// is a node once, and each step from one state to another under one label
/// is an edge once.
///
/// The shape is kept in a `petgraph` graph whose node `i` stands for the
/// `i`-th state and whose edge `e` carries the `e`-th label.
pub struct StateDiagram<N, E> {
    nodes: Vec<N>,
    labels: Vec<E>,
    graph: Graph<usize, (), Directed, usize>,
}

/// The mathematical value of a [`StateDiagram`]: its nodes in the order of
/// their indices, and its edges, each from one node index to another under a
/// label, in the order in which they were added.
pub struct DiagramView<N, E> {
    pub nodes: Seq<N>,
    pub edges: Seq<(int, int, E)>,
}

/// The diagram after one more step was seen: from node `prev`, under
/// `label`, to the state `node`. The second result is the index of `node`.
pub open spec fn stepped<N, E>(d: DiagramView<N, E>, prev: int, label: E, node: N) -> (
    DiagramView<N, E>,
    int,
) {
    let at = if d.nodes.contains(node) {
        d.nodes.index_of(node)
    } else {
        d.nodes.len() as int
    };
    let nodes = if d.nodes.contains(node) {
        d.nodes
    } else {
        d.nodes.push(node)
    };
    let edges = if d.edges.contains((prev, at, label)) {
        d.edges
    } else {
        d.edges.push((prev, at, label))
    };
    (DiagramView { nodes, edges }, at)
}

/// The diagram after a walk was seen that starts at node `prev` and takes
/// `steps`, each a label and the state it led to.
pub open spec fn walked<N, E>(d: DiagramView<N, E>, prev: int, steps: Seq<(E, N)>) -> DiagramView<
    N,
    E,
>
    decreases steps.len(),
{
    if steps.len() == 0 {
        d
    } else {
        let (next, at) = stepped(d, prev, steps[0].0, steps[0].1);
        walked(next, at, steps.drop_first())
    }
}

/// The diagram after each of `walks` was seen, each starting at node 0.
pub open spec fn walked_all<N, E>(d: DiagramView<N, E>, walks: Seq<Seq<(E, N)>>) -> DiagramView<
    N,
    E,
>
    decreases walks.len(),
{
    if walks.len() == 0 {
        d
    } else {
        walked_all(walked(d, 0, walks[0]), walks.drop_first())
    }
}

/// The walks of a list, one for one.
pub open spec fn walks_of<N, E>(walks: Seq<Vec<(E, N)>>) -> Seq<Seq<(E, N)>> {
    Seq::new(walks.len(), |i: int| walks[i]@)
}

impl<N, E> View for StateDiagram<N, E> {
    type V = DiagramView<N, E>;

    closed spec fn view(&self) -> DiagramView<N, E> {
        DiagramView {
            nodes: self.nodes@,
            edges: Seq::new(
                self.labels.len() as nat,
                |e: int|
                    (
                        edge_ends(self.graph)[e].0 as int,
                        edge_ends(self.graph)[e].1 as int,
                        self.labels[e],
                    ),
            ),
        }
    }
}

impl<N, E> StateDiagram<N, E> {
    /// Node `i` of the stored graph stands for the `i`-th state, edge `e`
    /// carries the `e`-th label and runs between two nodes, no state is a
    /// node twice, and there is at least the node that walks start from.
    pub closed spec fn wf(&self) -> bool {
        &&& self.nodes.len() > 0
        &&& self.nodes@.no_duplicates()
        &&& node_weights(self.graph).len() == self.nodes.len()
        &&& edge_ends(self.graph).len() == self.labels.len()
        &&& forall|e: int|
            0 <= e < self.labels.len() ==> (#[trigger] edge_ends(self.graph)[e]).0
                < self.nodes.len() && edge_ends(self.graph)[e].1 < self.nodes.len()
    }

    /// A well-formed diagram has a first node, holds no state twice, and
    /// its edges join nodes.
    pub proof fn lemma_shape(&self)
        requires
            self.wf(),
        ensures
            self@.nodes.len() > 0,
            self@.nodes.no_duplicates(),
            forall|e: int|
                0 <= e < self@.edges.len() ==> 0 <= (#[trigger] self@.edges[e]).0
                    < self@.nodes.len() && 0 <= self@.edges[e].1 < self@.nodes.len(),
    {
    }

    /// The number of nodes.
    pub fn node_count(&self) -> (n: usize)
        ensures
            n == self@.nodes.len(),
    {
        self.nodes.len()
    }

    /// The number of edges.
    pub fn edge_count(&self) -> (n: usize)
        ensures
            n == self@.edges.len(),
    {
        self.labels.len()
    }

    /// The state at node `i`.
    pub fn node(&self, i: usize) -> (n: &N)
        requires
            i < self@.nodes.len(),
        ensures
            *n == self@.nodes[i as int],
    {
        &self.nodes[i]
    }

    /// Edge `e`: the node it starts from, the node it leads to, and its
    /// label.
    pub fn edge(&self, e: usize) -> (r: (usize, usize, &E))
        requires
            self.wf(),
            e < self@.edges.len(),
        ensures
            (r.0 as int, r.1 as int, *r.2) == self@.edges[e as int],
    {
        match graph_edge_endpoints(&self.graph, e) {
            Some((a, b)) => (a, b, &self.labels[e]),
            None => (0, 0, &self.labels[e]),
        }
    }
}

impl<N: PartialEq, E: PartialEq> StateDiagram<N, E> {
    /// The diagram of the state `initial` alone.
    pub fn new(initial: N) -> (d: Self)
        ensures
            d.wf(),
            d@.nodes == seq![initial],
            d@.edges == Seq::<(int, int, E)>::empty(),
    {
        let mut graph = graph_new();
        let _ = graph_add_node(&mut graph, 0);
        let mut nodes: Vec<N> = Vec::new();
        nodes.push(initial);
        let d = StateDiagram { nodes, labels: Vec::new(), graph };
        proof {
            assert(d@.nodes =~= seq![initial]);
            assert(d@.edges =~= Seq::<(int, int, E)>::empty());
        }
        d
    }

    /// The index of the node that stands for `node`, if there is one.
    fn find_node(&self, node: &N) -> (r: Option<usize>)
        requires
            obeys_concrete_eq::<N>(),
            self.wf(),
        ensures
            match r {
                Some(i) => self@.nodes.contains(*node) && i == self@.nodes.index_of(*node),
                None => !self@.nodes.contains(*node),
            },
    {
        let mut i: usize = 0;
        while i < self.nodes.len()
            invariant
                obeys_concrete_eq::<N>(),
                self.wf(),
                i <= self.nodes.len(),
                forall|j: int| 0 <= j < i ==> self.nodes@[j] != *node,
            decreases self.nodes.len() - i,
        {
            if self.nodes[i].eq(node) {
                proof {
                    reveal(obeys_concrete_eq);
                    assert(self.nodes@[i as int] == *node);
                    let at = self.nodes@.index_of(*node);
                    assert(self.nodes@[at] == *node);
                }
                return Some(i);
            }
            proof {
                reveal(obeys_concrete_eq);
            }
            i = i + 1;
        }
        None
    }

    /// Whether there is an edge from node `a` to node `b` under `label`.
    fn has_edge(&self, a: usize, b: usize, label: &E) -> (r: bool)
        requires
            obeys_concrete_eq::<E>(),
            self.wf(),
        ensures
            r == self@.edges.contains((a as int, b as int, *label)),
    {
        let ghost wanted = (a as int, b as int, *label);
        let mut e: usize = 0;
        while e < self.labels.len()
            invariant
                obeys_concrete_eq::<E>(),
                self.wf(),
                e <= self.labels.len(),
                wanted == (a as int, b as int, *label),
                forall|j: int| 0 <= j < e ==> self@.edges[j] != wanted,
            decreases self.labels.len() - e,
        {
            let found = match graph_edge_endpoints(&self.graph, e) {
                Some((from, to)) => from == a && to == b && self.labels[e].eq(label),
                None => false,
            };
            proof {
                reveal(obeys_concrete_eq);
            }
            if found {
                proof {
                    assert(self@.edges[e as int] == wanted);
                }
                return true;
            }
            e = e + 1;
        }
        false
    }

    /// Adds what one step shows: the state `node`, unless it is a node
    /// already, and the edge to it from node `prev` under `label`, unless
    /// there is one already. Returns the index of `node`.
    pub fn step(&mut self, prev: usize, label: E, node: N) -> (at: usize)
        requires
            obeys_concrete_eq::<N>(),
            obeys_concrete_eq::<E>(),
            old(self).wf(),
            prev < old(self)@.nodes.len(),
        ensures
            final(self).wf(),
            (final(self)@, at as int) == stepped(old(self)@, prev as int, label, node),
            at < final(self)@.nodes.len(),
    {
        let ghost before = self@;
        let at = match self.find_node(&node) {
            Some(i) => i,
            None => {
                let n = self.nodes.len();
                self.nodes.push(node);
                let _ = graph_add_node(&mut self.graph, n);
                proof {
                    assert(self@.nodes =~= before.nodes.push(node));
                    assert(self@.edges =~= before.edges);
                }
                n
            },
        };
        let ghost between = self@;
        if !self.has_edge(prev, at, &label) {
            self.labels.push(label);
            let _ = graph_add_edge(&mut self.graph, prev, at);
            proof {
                assert(self@.edges =~= between.edges.push((prev as int, at as int, label)));
            }
        }
        proof {
            assert(self@.nodes == stepped(before, prev as int, label, node).0.nodes);
            assert(self@.edges == stepped(before, prev as int, label, node).0.edges);
        }
        at
    }

    /// Adds what a walk shows that starts at node 0 and takes `steps`.
    pub fn add_walk(&mut self, steps: Vec<(E, N)>)
        requires
            obeys_concrete_eq::<N>(),
            obeys_concrete_eq::<E>(),
            old(self).wf(),
        ensures
            final(self).wf(),
            final(self)@ == walked(old(self)@, 0, steps@),
    {
        let ghost all = steps@;
        let mut pending = turned(steps);
        let mut prev: usize = 0;
        let ghost mut done: int = 0;
        proof {
            assert(all.skip(0) =~= all);
        }
        while pending.len() > 0
            invariant
                obeys_concrete_eq::<N>(),
                obeys_concrete_eq::<E>(),
                self.wf(),
                prev < self@.nodes.len(),
                0 <= done <= all.len(),
                pending@.reverse() == all.skip(done),
                walked(old(self)@, 0, all) == walked(self@, prev as int, all.skip(done)),
            decreases pending.len(),
        {
            let ghost left = all.skip(done);
            let ghost held = pending@;
            let (label, node) = pending.pop().unwrap();
            proof {
                assert(held.reverse()[0] == (label, node));
                assert(left[0] == (label, node));
                assert(held.reverse() =~= seq![(label, node)] + pending@.reverse());
                assert(pending@.reverse() =~= left.drop_first());
                assert(left.drop_first() =~= all.skip(done + 1));
            }
            prev = self.step(prev, label, node);
            proof {
                done = done + 1;
            }
        }
        proof {
            assert(all.skip(done).len() == 0);
        }
    }
}

/// The same list in the opposite order.
fn turned<T>(list: Vec<T>) -> (r: Vec<T>)
    ensures
        r@ == list@.reverse(),
{
    let ghost all = list@;
    let mut list = list;
    let mut out: Vec<T> = Vec::new();
    while list.len() > 0
        invariant
            list@.len() + out@.len() == all.len(),
            list@ == all.take(list@.len() as int),
            out@ == all.skip(list@.len() as int).reverse(),
        decreases list.len(),
    {
        let ghost n = list@.len() as int;
        let item = list.pop().unwrap();
        out.push(item);
        proof {
            assert(list@ =~= all.take(n - 1));
            assert(out@ =~= all.skip(n - 1).reverse());
        }
    }
    proof {
        assert(all.skip(0) =~= all);
    }
    out
}

/// The diagram of the state `initial` and of what each of `walks` shows.
/// Every walk starts at `initial`; each of its steps is the label of an
/// action and the state that the action led to.
pub fn state_diagram<N: PartialEq, E: PartialEq>(initial: N, walks: Vec<Vec<(E, N)>>) -> (d:
    StateDiagram<N, E>)
    requires
        obeys_concrete_eq::<N>(),
        obeys_concrete_eq::<E>(),
    ensures
        d.wf(),
        d@ == walked_all(
            DiagramView { nodes: seq![initial], edges: Seq::empty() },
            walks_of(walks@),
        ),
{
    let ghost all = walks_of(walks@);
    let ghost first = DiagramView::<N, E> { nodes: seq![initial], edges: Seq::empty() };
    let mut d = StateDiagram::new(initial);
    let mut pending = turned(walks);
    let ghost mut done: int = 0;
    proof {
        assert(all.skip(0) =~= all);
        assert(d@ == first);
    }
    while pending.len() > 0
        invariant
            obeys_concrete_eq::<N>(),
            obeys_concrete_eq::<E>(),
            d.wf(),
            0 <= done <= all.len(),
            walks_of(pending@).reverse() == all.skip(done),
            walked_all(first, all) == walked_all(d@, all.skip(done)),
        decreases pending.len(),
    {
        let ghost left = all.skip(done);
        let ghost held = walks_of(pending@);
        let steps = pending.pop().unwrap();
        proof {
            assert(held.reverse()[0] == steps@);
            assert(left[0] == steps@);
            assert(held.reverse() =~= seq![steps@] + walks_of(pending@).reverse());
            assert(walks_of(pending@).reverse() =~= left.drop_first());
            assert(left.drop_first() =~= all.skip(done + 1));
        }
        d.add_walk(steps);
        proof {
            done = done + 1;
        }
    }
    proof {
        assert(all.skip(done).len() == 0);
    }
    d
}

} // verus!
