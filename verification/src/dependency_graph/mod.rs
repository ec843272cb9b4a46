//! The dependency graph of a workspace.
//!
//! The graph itself is kept in a `petgraph` stable graph, which is built
//! elsewhere and only read here.

use vstd::prelude::*;
use petgraph::stable_graph::StableGraph;
use crate::package::{DependencyKind, Package, PackageView};

pub mod cycles;
pub mod draw;
pub mod formatter;
pub mod lookup;
pub mod order;
pub mod reach;
pub mod storage;
pub mod tree;
pub mod walk;

verus! {

/// `petgraph`'s stable graph, of which nothing but its name is known here.
#[verifier::external_type_specification]
#[verifier::external_body]
#[verifier::reject_recursive_types(N)]
#[verifier::reject_recursive_types(E)]
#[verifier::reject_recursive_types(Ty)]
#[verifier::reject_recursive_types(Ix)]
pub struct ExStableGraph<N, E, Ty, Ix>(StableGraph<N, E, Ty, Ix>);

/// `petgraph`'s marker of graphs with directed edges.
#[verifier::external_type_specification]
#[verifier::external_body]
pub struct ExDirected(petgraph::Directed);

/// The packages that a stable graph holds as node weights, by node index.
pub uninterp spec fn graph_packages(g: StableGraph<Package, DependencyKind>) -> Map<
    usize,
    PackageView,
>;

/// For each node index of a stable graph, the edges that leave the node, in
/// the order in which the graph walks them: for each edge the index of the
/// node it leads to, and its weight.
pub uninterp spec fn graph_dependencies(g: StableGraph<Package, DependencyKind>) -> Map<
    usize,
    Seq<(usize, DependencyKind)>,
>;

/// A dependency graph: one node for each package, and an edge from a package
/// to each package it depends on, tagged with the kind of the dependency.
pub struct Graph {
    pub graph: StableGraph<Package, DependencyKind>,
}

/// What a [`Graph`] holds, as mathematical values. Nodes are named by their
/// index in the graph.
pub ghost struct GraphView {
    /// The package at each node index.
    pub packages: Map<usize, PackageView>,
    /// The edges that leave each node: target and kind, in the graph's own
    /// order.
    pub dependencies: Map<usize, Seq<(usize, DependencyKind)>>,
}

impl View for Graph {
    type V = GraphView;

    open spec fn view(&self) -> GraphView {
        GraphView {
            packages: graph_packages(self.graph),
            dependencies: graph_dependencies(self.graph),
        }
    }
}

impl GraphView {
    /// Whether `node` is the index of a node of the graph.
    pub open spec fn has(self, node: usize) -> bool {
        self.packages.dom().contains(node)
    }

    /// Whether `to` is the target of an edge that leaves `from`.
    pub open spec fn has_edge(self, from: usize, to: usize) -> bool {
        exists|i: int|
            0 <= i < self.dependencies[from].len() && (#[trigger] self.dependencies[from][i]).0
                == to
    }

    /// Whether `rank` gives every node a larger number than each node it has
    /// an edge to.
    pub open spec fn ranked_by(self, rank: Map<usize, nat>) -> bool {
        forall|n: usize, m: usize| self.has(n) && #[trigger] self.has_edge(n, m) ==> rank[m] < rank[n]
    }

    /// Whether the graph has no cycle: its nodes can be ranked so that every
    /// edge leads downwards.
    pub open spec fn acyclic(self) -> bool {
        exists|rank: Map<usize, nat>| self.ranked_by(rank)
    }

    /// A ranking of the nodes under which every edge leads downwards, where
    /// the graph has no cycle.
    pub open spec fn ranking(self) -> Map<usize, nat> {
        choose|rank: Map<usize, nat>| self.ranked_by(rank)
    }
}

impl Graph {
    /// Whether `node` is the index of a node of the graph.
    pub fn has_node(&self, node: usize) -> (r: bool)
        ensures
            r == self@.has(node),
    {
        let nodes = self.node_indices();
        let mut i: usize = 0;
        while i < nodes.len()
            invariant
                i <= nodes@.len(),
                self@.has(node) <==> nodes@.contains(node),
                forall|k: int| 0 <= k < i ==> nodes@[k] != node,
            decreases nodes@.len() - i,
        {
            if nodes[i] == node {
                assert(nodes@.contains(node));
                return true;
            }
            i += 1;
        }
        false
    }

    /// The package at `node`, if `node` is the index of a node of the graph.
    pub fn package_at(&self, node: usize) -> (r: Option<&Package>)
        ensures
            match r {
                Some(package) => self@.has(node) && package@ == self@.packages[node],
                None => !self@.has(node),
            },
    {
        if self.has_node(node) {
            Some(self.package(node))
        } else {
            None
        }
    }

    /// Calls `StableGraph::node_indices`, which walks the node slots in index
    /// order and yields the index of each slot that holds a node: the result
    /// is ascending and holds exactly the indices of the graph's nodes.
    #[verifier::external_body]
    pub(crate) fn node_indices(&self) -> (r: Vec<usize>)
        ensures
            forall|i: int, j: int| 0 <= i < j < r@.len() ==> r@[i] < r@[j],
            forall|n: usize| graph_packages(self.graph).dom().contains(n) <==> r@.contains(n),
    {
        self.graph.node_indices().map(|n| n.index()).collect()
    }

    /// Indexes the `StableGraph` by a node index, which gives the node's
    /// weight and panics where the graph has no such node.
    #[verifier::external_body]
    pub(crate) fn package(&self, node: usize) -> (r: &Package)
        requires
            graph_packages(self.graph).dom().contains(node),
        ensures
            r@ == graph_packages(self.graph)[node],
    {
        &self.graph[petgraph::stable_graph::NodeIndex::new(node)]
    }

    /// Calls `StableGraph::edges_directed` for the outgoing direction and
    /// hands out, for each edge in the order of that walk, the index of its
    /// target and its weight. Every edge of a stable graph ends at a node of
    /// the graph.
    #[verifier::external_body]
    pub(crate) fn dependencies(&self, node: usize) -> (r: Vec<(usize, DependencyKind)>)
        requires
            graph_packages(self.graph).dom().contains(node),
        ensures
            r@ == graph_dependencies(self.graph)[node],
            forall|i: int|
                0 <= i < r@.len() ==> graph_packages(self.graph).dom().contains(
                    (#[trigger] r@[i]).0,
                ),
    {
        self.graph.edges_directed(
            petgraph::stable_graph::NodeIndex::new(node),
            petgraph::Direction::Outgoing,
        ).map(|e| (petgraph::visit::EdgeRef::target(&e).index(), *petgraph::visit::EdgeRef::weight(&e))).collect()
    }
}

} // verus!
