//! The graph of failed causes, and the traversal that produces it.

use crate::cause::{clone_is_exact, views, well_behaved, Cause, CauseView, Fact};
use crate::digraph::{
    edge_ends, graph_add_edge, graph_add_node, graph_edge_count, graph_edge_endpoints, graph_new,
    node_weights,
};
use crate::eval::{evaluation, terminates, Memo, Outcome};
use crate::evaluate::traverse_inner;
use crate::prune::{prune_traversal, ref_views, row_keys, row_of, rows_hold};
use crate::table::TraversalMap;
use crate::walk::{
    explained_by, explains_all, failures_of, lemma_distinct, lemma_failures_explain_all,
    lemma_links_from_next, lemma_links_from_none, links, links_from, passes_of,
};
use petgraph::graph::Graph;
use petgraph::Directed;
use vstd::prelude::*;

verus! {

/// A directed graph of causes. An edge from one cause to another means that
/// the failure of the first is explained by the second.
///
/// Each cause is a node at most once. The shape is kept in a `petgraph`
/// graph whose node `i` stands for the `i`-th cause.
#[derive(Debug)]
pub struct CausalGraph<T> {
    causes: Vec<Cause<T>>,
    graph: Graph<usize, (), Directed, usize>,
}

/// The mathematical value of a [`CausalGraph`]: its nodes in the order of
/// their indices, and its edges in the order in which they were added.
pub struct GraphView<T> {
    /// The cause at each node.
    pub nodes: Seq<CauseView<T>>,
    /// The cause that each edge starts from, and the cause that it leads to.
    pub edges: Seq<(CauseView<T>, CauseView<T>)>,
}

impl<T> View for CausalGraph<T> {
    type V = GraphView<T>;

    closed spec fn view(&self) -> GraphView<T> {
        GraphView {
            nodes: views(self.causes@),
            edges: Seq::new(
                edge_ends(self.graph).len(),
                |e: int|
                    (
                        self.causes[edge_ends(self.graph)[e].0 as int]@,
                        self.causes[edge_ends(self.graph)[e].1 as int]@,
                    ),
            ),
        }
    }
}

impl<T> CausalGraph<T> {
    /// Node `i` of the stored graph stands for the `i`-th cause, every edge
    /// runs between such nodes, and no cause is a node twice.
    pub closed spec fn wf(&self) -> bool {
        &&& node_weights(self.graph).len() == self.causes.len()
        &&& forall|i: int|
            0 <= i < self.causes.len() ==> (#[trigger] node_weights(self.graph)[i]) == i
        &&& forall|e: int|
            0 <= e < edge_ends(self.graph).len() ==> (#[trigger] edge_ends(self.graph)[e]).0
                < self.causes.len() && edge_ends(self.graph)[e].1 < self.causes.len()
        &&& views(self.causes@).no_duplicates()
    }

    /// The edges as pairs of node indices, in the order in which they were
    /// added.
    pub closed spec fn edge_indices(&self) -> Seq<(usize, usize)> {
        edge_ends(self.graph)
    }

    /// In a well-formed graph no cause is a node twice, and every edge joins
    /// two nodes.
    pub proof fn lemma_shape(&self)
        requires
            self.wf(),
        ensures
            self@.nodes.no_duplicates(),
            self@.edges.len() == self.edge_indices().len(),
            forall|e: int|
                0 <= e < self@.edges.len() ==> {
                    &&& (#[trigger] self.edge_indices()[e]).0 < self@.nodes.len()
                    &&& self.edge_indices()[e].1 < self@.nodes.len()
                    &&& self@.edges[e] == (
                        self@.nodes[self.edge_indices()[e].0 as int],
                        self@.nodes[self.edge_indices()[e].1 as int],
                    )
                },
    {
    }

    /// A graph with no nodes and no edges.
    pub fn new() -> (g: Self)
        ensures
            g.wf(),
            g@.nodes == Seq::<CauseView<T>>::empty(),
            g@.edges == Seq::<(CauseView<T>, CauseView<T>)>::empty(),
    {
        let g = CausalGraph { causes: Vec::new(), graph: graph_new() };
        proof {
            assert(g@.nodes =~= Seq::<CauseView<T>>::empty());
            assert(g@.edges =~= Seq::<(CauseView<T>, CauseView<T>)>::empty());
        }
        g
    }

    /// The number of nodes.
    pub fn node_count(&self) -> (n: usize)
        ensures
            n == self@.nodes.len(),
    {
        self.causes.len()
    }

    /// The number of edges.
    pub fn edge_count(&self) -> (n: usize)
        ensures
            n == self@.edges.len(),
    {
        graph_edge_count(&self.graph)
    }

    /// The cause at node `i`.
    pub fn node(&self, i: usize) -> (c: &Cause<T>)
        requires
            i < self@.nodes.len(),
        ensures
            c@ == self@.nodes[i as int],
    {
        &self.causes[i]
    }

    /// The edges as pairs of node indices, in the order in which they were
    /// added.
    pub fn edge_ends(&self) -> (r: Vec<(usize, usize)>)
        requires
            self.wf(),
        ensures
            r@ == self.edge_indices(),
    {
        let mut out: Vec<(usize, usize)> = Vec::new();
        let count = graph_edge_count(&self.graph);
        let mut e: usize = 0;
        while e < count
            invariant
                count == edge_ends(self.graph).len(),
                e <= count,
                out@ == edge_ends(self.graph).take(e as int),
            decreases count - e,
        {
            match graph_edge_endpoints(&self.graph, e) {
                Some(ends) => {
                    out.push(ends);
                    proof {
                        assert(out@ =~= edge_ends(self.graph).take(e + 1));
                    }
                },
                None => {},
            }
            e = e + 1;
        }
        proof {
            assert(edge_ends(self.graph).take(count as int) =~= edge_ends(self.graph));
        }
        out
    }

    /// Adds `cause` as a new node and returns its index.
    pub fn add_node(&mut self, cause: Cause<T>) -> (index: usize)
        requires
            old(self).wf(),
            !old(self)@.nodes.contains(cause@),
        ensures
            final(self).wf(),
            final(self)@.nodes == old(self)@.nodes.push(cause@),
            final(self)@.edges == old(self)@.edges,
            index == old(self)@.nodes.len(),
    {
        let ghost added = cause@;
        let n = self.causes.len();
        self.causes.push(cause);
        let index = graph_add_node(&mut self.graph, n);
        proof {
            let before = views(old(self).causes@);
            let after = views(self.causes@);
            assert(after =~= before.push(added));
            assert(after.no_duplicates());
            assert(self@.edges =~= old(self)@.edges);
        }
        index
    }

    /// Adds an edge from node `a` to node `b`. An edge that is there already
    /// is added once more.
    pub fn add_edge(&mut self, a: usize, b: usize)
        requires
            old(self).wf(),
            a < old(self)@.nodes.len(),
            b < old(self)@.nodes.len(),
        ensures
            final(self).wf(),
            final(self)@.nodes == old(self)@.nodes,
            final(self)@.edges == old(self)@.edges.push(
                (old(self)@.nodes[a as int], old(self)@.nodes[b as int]),
            ),
    {
        let _ = graph_add_edge(&mut self.graph, a, b);
        proof {
            assert(self@.edges =~= old(self)@.edges.push(
                (old(self)@.nodes[a as int], old(self)@.nodes[b as int]),
            ));
        }
    }
}

impl<T: Clone> CausalGraph<T> {
    /// The nodes, each once, in the order of their indices.
    pub fn nodes(&self) -> (r: Vec<Cause<T>>)
        requires
            clone_is_exact::<T>(),
        ensures
            views(r@) == self@.nodes,
    {
        crate::cause::clone_causes(&self.causes)
    }

    /// The edges, each as the cause it starts from and the cause it leads
    /// to, in the order in which they were added.
    pub fn edges(&self) -> (r: Vec<(Cause<T>, Cause<T>)>)
        requires
            clone_is_exact::<T>(),
            self.wf(),
        ensures
            pair_views(r@) == self@.edges,
    {
        let mut out: Vec<(Cause<T>, Cause<T>)> = Vec::new();
        let count = graph_edge_count(&self.graph);
        let mut e: usize = 0;
        while e < count
            invariant
                clone_is_exact::<T>(),
                self.wf(),
                count == edge_ends(self.graph).len(),
                e <= count,
                out.len() == e,
                forall|i: int| 0 <= i < e ==> (#[trigger] pair_views(out@)[i]) == self@.edges[i],
            decreases count - e,
        {
            match graph_edge_endpoints(&self.graph, e) {
                Some((a, b)) => {
                    let ghost held = pair_views(out@);
                    let from = self.causes[a].clone();
                    let to = self.causes[b].clone();
                    out.push((from, to));
                    proof {
                        assert(pair_views(out@) =~= held.push(self@.edges[e as int]));
                    }
                },
                None => {},
            }
            e = e + 1;
        }
        proof {
            assert(pair_views(out@) =~= self@.edges);
        }
        out
    }
}

impl<T> Default for CausalGraph<T> {
    fn default() -> (g: Self)
        ensures
            g.wf(),
            g@.nodes == Seq::<CauseView<T>>::empty(),
            g@.edges == Seq::<(CauseView<T>, CauseView<T>)>::empty(),
    {
        CausalGraph::new()
    }
}

/// The views of a list of pairs of causes, one for one.
pub open spec fn pair_views<T>(pairs: Seq<(Cause<T>, Cause<T>)>) -> Seq<
    (CauseView<T>, CauseView<T>),
> {
    Seq::new(pairs.len(), |i: int| (pairs[i].0@, pairs[i].1@))
}

/// The outcome of traversing the causes of one cause.
#[derive(Debug)]
pub enum Traversal<T> {
    /// The cause holds; nothing more needs to be said.
    Pass,
    /// The cause does not hold, and every path from it led round in a
    /// circle before it reached a fact that could be checked.
    Groundless,
    /// The cause does not hold.
    Fail {
        /// The graph of the failed causes, starting from the cause itself.
        graph: CausalGraph<T>,
        /// The causes that passed and at which the search stopped.
        passes: Vec<Cause<T>>,
    },
}

impl<T> Traversal<T> {
    /// The graph and the passes of a failure, and `None` for any other
    /// outcome.
    pub fn fail(self) -> (r: Option<(CausalGraph<T>, Vec<Cause<T>>)>)
        ensures
            match self {
                Traversal::Fail { graph, passes } => r == Some((graph, passes)),
                _ => r is None,
            },
    {
        match self {
            Traversal::Fail { graph, passes } => Some((graph, passes)),
            _ => None,
        }
    }
}

/// Following edges never leads round in a circle: the nodes can be numbered
/// so that every edge leads to a lower number.
pub open spec fn acyclic<T>(g: GraphView<T>) -> bool {
    exists|rank: Map<CauseView<T>, int>| #[trigger] descends(g, rank)
}

/// Every edge leads to a node of lower rank.
pub open spec fn descends<T>(g: GraphView<T>, rank: Map<CauseView<T>, int>) -> bool {
    forall|e: int| 0 <= e < g.edges.len() ==> rank[(#[trigger] g.edges[e]).1] < rank[g.edges[e].0]
}

/// The graph over failed causes of a table, with an edge wherever one node
/// is explained by another, has no circle: what explains a cause settled
/// before it.
pub proof fn lemma_links_descend<T>(table: &TraversalMap<T>, nodes: Seq<CauseView<T>>)
    requires
        table.wf(),
        forall|i: int| 0 <= i < nodes.len() ==> crate::walk::failed(table@)(#[trigger] nodes[i]),
    ensures
        acyclic(GraphView { nodes, edges: links(table@, nodes, nodes.len()) }),
{
    let memo = table@;
    let edges = links(memo, nodes, nodes.len());
    let rank = Map::new(|k: CauseView<T>| true, |k: CauseView<T>| table.rank(k));
    assert forall|e: int| 0 <= e < edges.len() implies rank[(#[trigger] edges[e]).1]
        < rank[edges[e].0] by {
        crate::walk::lemma_links_follow(memo, nodes, nodes.len(), e);
        let k = edges[e].0;
        let c = edges[e].1;
        let i = nodes.index_of(k);
        assert(nodes[i] == k);
        let j = explained_by(memo, k).index_of(c);
        assert(explained_by(memo, k)[j] == c);
        table.lemma_explained_earlier(k, j);
    }
    assert(descends(GraphView { nodes, edges }, rank));
}

/// `graph` and `passes` are what the walk over `memo` from `start` reports:
/// the nodes are the failures that the walk meets, each once, in the order
/// in which it first meets them; the edges, which form no circle, lead
/// from each node, in order, to the causes that explain it and are nodes
/// themselves, which every failure among them is; and the passes are those
/// that the walk meets, in order.
pub open spec fn reports<T>(
    graph: CausalGraph<T>,
    passes: Seq<CauseView<T>>,
    memo: Memo<T>,
    start: CauseView<T>,
) -> bool {
    &&& graph.wf()
    &&& graph@.nodes == failures_of(memo, start)
    &&& graph@.edges == links(memo, graph@.nodes, graph@.nodes.len())
    &&& acyclic(graph@)
    &&& explains_all(memo, graph@.nodes)
    &&& passes == passes_of(memo, start)
}

/// Builds the graph of failures from the finished `table`, and lists the
/// passes at which the search stopped.
///
/// Each failure becomes the node whose index is its place among the
/// failures. That the graph hands out these indices is proved here, so
/// nothing is left to test when the program runs.
pub fn produce_graph<T: Fact>(table: &TraversalMap<T>, start: &Cause<T>) -> (r: (
    CausalGraph<T>,
    Vec<Cause<T>>,
))
    requires
        well_behaved::<T>(),
        table.wf(),
    ensures
        reports(r.0, views(r.1@), table@, start@),
{
    let (rows, found) = prune_traversal(table, start);
    let ghost keys = row_keys(rows@);
    let ghost memo = table@;
    proof {
        lemma_distinct(crate::walk::trail(memo, start@).filter(crate::walk::failed(memo)));
    }
    let mut g: CausalGraph<T> = CausalGraph::new();
    let mut i: usize = 0;
    proof {
        assert(keys.take(0) =~= Seq::<CauseView<T>>::empty());
    }
    while i < rows.len()
        invariant
            well_behaved::<T>(),
            i <= rows.len(),
            keys == row_keys(rows@),
            keys.no_duplicates(),
            g.wf(),
            g@.nodes == keys.take(i as int),
            g@.edges == Seq::<(CauseView<T>, CauseView<T>)>::empty(),
        decreases rows.len() - i,
    {
        let cause = rows[i].0.clone();
        proof {
            assert(cause@ == keys[i as int]);
            if keys.take(i as int).contains(cause@) {
                let at = keys.take(i as int).index_of(cause@);
                assert(keys[at] == keys[i as int]);
            }
            assert(keys.take(i + 1) =~= keys.take(i as int).push(keys[i as int]));
        }
        let index = g.add_node(cause);
        assert(index == i);
        i = i + 1;
    }
    proof {
        assert(keys.take(rows.len() as int) =~= keys);
    }
    let mut i: usize = 0;
    while i < rows.len()
        invariant
            well_behaved::<T>(),
            i <= rows.len(),
            keys == row_keys(rows@),
            memo == table@,
            rows_hold(memo, rows@),
            g.wf(),
            g@.nodes == keys,
            g@.edges == links(memo, keys, i as nat),
        decreases rows.len() - i,
    {
        let explained = rows[i].1;
        let ghost k = keys[i as int];
        let ghost targets = views(explained@);
        let ghost so_far = links(memo, keys, i as nat);
        proof {
            assert(rows[i as int].0@ == k);
            assert(targets == explained_by(memo, k));
            lemma_links_from_none(keys, k, targets);
            assert(g@.edges =~= so_far + links_from(keys, k, targets.take(0)));
        }
        let mut j: usize = 0;
        while j < explained.len()
            invariant
                well_behaved::<T>(),
                j <= explained.len(),
                i < rows.len(),
                keys == row_keys(rows@),
                k == keys[i as int],
                targets == views(explained@),
                g.wf(),
                g@.nodes == keys,
                g@.edges == so_far + links_from(keys, k, targets.take(j as int)),
            decreases explained.len() - j,
        {
            let ghost held = links_from(keys, k, targets.take(j as int));
            proof {
                lemma_links_from_next(keys, k, targets, j as int);
            }
            match row_of(&rows, &explained[j]) {
                Some(p) => {
                    proof {
                        assert(keys[p as int] == targets[j as int]);
                    }
                    g.add_edge(i, p);
                    proof {
                        assert(g@.edges =~= so_far + held.push((k, targets[j as int])));
                    }
                },
                None => {},
            }
            j = j + 1;
        }
        proof {
            assert(targets.take(explained.len() as int) =~= targets);
        }
        i = i + 1;
    }
    let passes = clone_refs(&found);
    proof {
        assert forall|i: int| 0 <= i < keys.len() implies crate::walk::failed(memo)(
            #[trigger] keys[i],
        ) by {
            assert(rows@[i].0@ == keys[i]);
        }
        lemma_links_descend(table, keys);
        lemma_failures_explain_all(table, start@);
        assert(g@ == (GraphView { nodes: keys, edges: links(memo, keys, keys.len()) }));
    }
    (g, passes)
}

/// Clones each of the borrowed causes.
fn clone_refs<T: Clone>(cs: &Vec<&Cause<T>>) -> (r: Vec<Cause<T>>)
    requires
        clone_is_exact::<T>(),
    ensures
        views(r@) == ref_views(cs@),
{
    let mut out: Vec<Cause<T>> = Vec::new();
    let mut i: usize = 0;
    while i < cs.len()
        invariant
            clone_is_exact::<T>(),
            i <= cs.len(),
            out.len() == i,
            forall|j: int| 0 <= j < i ==> out[j]@ == cs[j]@,
        decreases cs.len() - i,
    {
        let c = cs[i].clone();
        out.push(c);
        i = i + 1;
    }
    proof {
        assert(views(out@) =~= ref_views(cs@));
    }
    out
}

/// `t` is the traversal that the outcome of evaluating `root` calls for.
pub open spec fn diagnoses<T>(t: Traversal<T>, root: CauseView<T>, outcome: Outcome<T>) -> bool {
    match outcome.check {
        None => t is Groundless,
        Some(crate::cause::CheckView::Pass) => t is Pass,
        Some(crate::cause::CheckView::Fail(_)) => match t {
            Traversal::Fail { graph, passes } => reports(graph, views(passes@), outcome.memo, root),
            _ => false,
        },
    }
}

/// Traverses the causes of `cause` against `ctx`.
///
/// The cause is evaluated with an empty memo. If it holds, the result is
/// `Pass`. If every path from it leads round in a circle, the result is
/// `Groundless`. Otherwise the result is `Fail`, with the graph of failures
/// and the passes that the walk over the finished memo reports.
pub fn traverse<F: Fact>(cause: &Cause<F>, ctx: &F::Context) -> (r: Traversal<F>)
    requires
        well_behaved::<F>(),
        terminates(cause@, *ctx, Map::empty()),
    ensures
        diagnoses(r, cause@, evaluation(cause@, *ctx, Map::empty())),
{
    let mut table: TraversalMap<F> = TraversalMap::new();
    match traverse_inner(cause, ctx, &mut table) {
        Some(check) => {
            if check.is_pass() {
                Traversal::Pass
            } else {
                let (graph, passes) = produce_graph(&table, cause);
                Traversal::Fail { graph, passes }
            }
        },
        None => Traversal::Groundless,
    }
}

} // verus!
