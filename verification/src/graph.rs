//! Adapter that exposes a graph as a transition model, so that graph walks
//! can reuse the traversal engine: states are nodes, actions are edges.

use vstd::prelude::*;

use crate::ActionsGenerator;
use crate::Environment;
use crate::ShouldContinueSearch;

verus! {

/// A directed graph presented through its nodes and the edges leaving each
/// node.
pub trait Graph: Sized {
    type Node: View;
    type Edge: View;

    /// Model of `nodes`: the views of the graph's nodes, in order.
    spec fn nodes_spec(&self) -> Seq<<Self::Node as View>::V>;

    /// Model of `edges`: the views of the edges leaving a node, in order.
    spec fn edges_spec(&self, n: <Self::Node as View>::V) -> Seq<<Self::Edge as View>::V>;

    /// Model of `edge_begin`.
    spec fn edge_begin_spec(e: <Self::Edge as View>::V) -> <Self::Node as View>::V;

    /// Model of `edge_end`.
    spec fn edge_end_spec(e: <Self::Edge as View>::V) -> <Self::Node as View>::V;

    fn nodes(&self) -> (r: Vec<Self::Node>)
        ensures
            r@.len() == self.nodes_spec().len(),
            forall|i: int| 0 <= i < r@.len() ==> (#[trigger] r@[i])@ == self.nodes_spec()[i],
    ;

    fn edges(&self, node: &Self::Node) -> (r: Vec<Self::Edge>)
        ensures
            r@.len() == self.edges_spec(node@).len(),
            forall|i: int| 0 <= i < r@.len() ==> (#[trigger] r@[i])@ == self.edges_spec(node@)[i],
    ;

    fn edge_begin(e: &Self::Edge) -> (r: Self::Node)
        ensures
            r@ == Self::edge_begin_spec(e@),
    ;

    fn edge_end(e: &Self::Edge) -> (r: Self::Node)
        ensures
            r@ == Self::edge_end_spec(e@),
    ;
}

/// A graph seen as a transition model: applying an edge jumps to the edge's
/// begin node, rolling it back jumps to its end node.
pub struct GraphEnvironment<G: Graph> {
    pub graph: G,
}

impl<G: Graph> Environment for GraphEnvironment<G> {
    type State = G::Node;

    type Action = G::Edge;

    open spec fn apply_spec(
        &self,
        s: <G::Node as View>::V,
        a: <G::Edge as View>::V,
    ) -> <G::Node as View>::V {
        G::edge_begin_spec(a)
    }

    open spec fn rollback_spec(
        &self,
        s: <G::Node as View>::V,
        a: <G::Edge as View>::V,
    ) -> <G::Node as View>::V {
        G::edge_end_spec(a)
    }

    fn apply(&self, state: &mut G::Node, action: &G::Edge) {
        *state = G::edge_begin(action);
    }

    fn rollback(&self, state: &mut G::Node, action: &G::Edge) {
        *state = G::edge_end(action);
    }
}

/// Agent for a depth-first walk over a graph: the candidate actions at a
/// node are exactly the edges leaving it.  Its continuation policy stops
/// every expansion, so a driver must opt nodes in explicitly.
pub struct DfsAgent<'a, G: Graph> {
    pub graph: &'a G,
}

impl<'a, G: Graph> ActionsGenerator<GraphEnvironment<G>> for DfsAgent<'a, G> {
    open spec fn actions_spec(&self, s: <G::Node as View>::V) -> Seq<<G::Edge as View>::V> {
        self.graph.edges_spec(s)
    }

    fn generate_actions(&mut self, state: &G::Node) -> (r: Vec<G::Edge>) {
        self.graph.edges(state)
    }
}

impl<'a, G: Graph> ShouldContinueSearch<GraphEnvironment<G>> for DfsAgent<'a, G> {
    open spec fn should_continue_spec(&self, s: <G::Node as View>::V) -> bool {
        false
    }

    fn should_continue(&mut self, state: &G::Node) -> (r: bool) {
        false
    }
}

/// Conservative tree check over the adapter: it never claims a graph is a
/// tree, so a `true` answer can never be wrong.
pub fn is_tree<G: Graph>(g: G) -> (r: bool)
    ensures
        !r,
{
    false
}

/// A finite graph given explicitly: the nodes are the integers
/// `0 .. node_count`, and `adjacency[n]` lists the edges leaving node `n`,
/// each as a `(begin, end)` pair.
pub struct EdgeListGraph {
    pub node_count: usize,
    pub adjacency: Vec<Vec<(usize, usize)>>,
}

impl Graph for EdgeListGraph {
    type Node = usize;

    type Edge = (usize, usize);

    open spec fn nodes_spec(&self) -> Seq<usize> {
        Seq::new(self.node_count as nat, |i: int| i as usize)
    }

    open spec fn edges_spec(&self, n: usize) -> Seq<(usize, usize)> {
        if n < self.adjacency@.len() {
            self.adjacency@[n as int]@
        } else {
            Seq::empty()
        }
    }

    open spec fn edge_begin_spec(e: (usize, usize)) -> usize {
        e.0
    }

    open spec fn edge_end_spec(e: (usize, usize)) -> usize {
        e.1
    }

    fn nodes(&self) -> (r: Vec<usize>) {
        let mut r: Vec<usize> = Vec::new();
        let mut i: usize = 0;
        while i < self.node_count
            invariant
                i <= self.node_count,
                r@ =~= self.nodes_spec().subrange(0, i as int),
            decreases self.node_count - i,
        {
            r.push(i);
            proof {
                assert(r@ =~= self.nodes_spec().subrange(0, i + 1));
            }
            i = i + 1;
        }
        proof {
            assert(self.nodes_spec().subrange(0, self.node_count as int) =~= self.nodes_spec());
        }
        r
    }

    fn edges(&self, node: &usize) -> (r: Vec<(usize, usize)>) {
        let mut r: Vec<(usize, usize)> = Vec::new();
        if *node < self.adjacency.len() {
            let mut i: usize = 0;
            while i < self.adjacency[*node].len()
                invariant
                    *node < self.adjacency@.len(),
                    i <= self.adjacency@[*node as int]@.len(),
                    r@ =~= self.edges_spec(*node).subrange(0, i as int),
                decreases self.adjacency@[*node as int]@.len() - i,
            {
                let e = self.adjacency[*node][i];
                r.push(e);
                proof {
                    assert(r@ =~= self.edges_spec(*node).subrange(0, i + 1));
                }
                i = i + 1;
            }
            proof {
                let all = self.edges_spec(*node);
                assert(all.subrange(0, all.len() as int) =~= all);
            }
        }
        r
    }

    fn edge_begin(e: &(usize, usize)) -> (r: usize) {
        e.0
    }

    fn edge_end(e: &(usize, usize)) -> (r: usize) {
        e.1
    }
}

} // verus!
