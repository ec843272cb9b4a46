//! Whether a dependency graph has a cycle.
//!
//! The nodes are ranked in passes: a pass gives its number to every node that
//! depends only on nodes ranked in earlier passes. Either all nodes end up
//! ranked, and every edge leads downwards; or a pass ranks nothing, and the
//! nodes that are left each depend on another of them.

use vstd::prelude::*;
use vstd::set_lib::{lemma_int_range, lemma_len_subset, lemma_subset_equality, set_int_range};
use crate::dependency_graph::{Graph, GraphView};

verus! {

/// Whether `nodes` lists the nodes of the graph in ascending order of their
/// index.
pub open spec fn lists_nodes(g: GraphView, nodes: Seq<usize>) -> bool {
    &&& forall|a: int, b: int| 0 <= a < b < nodes.len() ==> nodes[a] < nodes[b]
    &&& forall|n: usize| g.has(n) <==> nodes.contains(n)
}

/// Whether every node that the node at place `p` depends on has a rank, and a
/// smaller one than the node itself. A rank of zero stands for none.
pub open spec fn ranked_below(g: GraphView, nodes: Seq<usize>, ranks: Seq<usize>, p: int) -> bool {
    forall|m: usize| #[trigger]
        g.has_edge(nodes[p], m) ==> exists|q: int|
            0 <= q < nodes.len() && nodes[q] == m && 0 < #[trigger] ranks[q] < ranks[p]
}

/// Whether the node at place `p` depends on a node that no pass before `pass`
/// has ranked.
pub open spec fn blocked(
    g: GraphView,
    nodes: Seq<usize>,
    ranks: Seq<usize>,
    pass: usize,
    p: int,
) -> bool {
    exists|m: usize, q: int|
        #![trigger g.has_edge(nodes[p], m), ranks[q]]
        g.has_edge(nodes[p], m) && 0 <= q < nodes.len() && nodes[q] == m && !(0 < ranks[q] < pass)
}

/// A set of nodes each of which depends on another node of the set is empty
/// where the graph is ranked: following these edges from `node`, the ranks
/// would have to go down for ever.
pub proof fn lemma_stuck_nodes_have_no_rank(
    g: GraphView,
    stuck: Set<usize>,
    rank: Map<usize, nat>,
    node: usize,
)
    requires
        g.ranked_by(rank),
        forall|n: usize| #[trigger]
            stuck.contains(n) ==> g.has(n) && exists|m: usize|
                #[trigger] g.has_edge(n, m) && stuck.contains(m),
    ensures
        !stuck.contains(node),
    decreases rank[node],
{
    if stuck.contains(node) {
        let next = choose|m: usize| #[trigger] g.has_edge(node, m) && stuck.contains(m);
        lemma_stuck_nodes_have_no_rank(g, stuck, rank, next);
    }
}

/// The place of `node` in the ascending list `nodes`.
fn position_of(nodes: &Vec<usize>, node: usize) -> (at: usize)
    requires
        forall|a: int, b: int| 0 <= a < b < nodes@.len() ==> nodes@[a] < nodes@[b],
        nodes@.contains(node),
    ensures
        at < nodes@.len(),
        nodes@[at as int] == node,
{
    let ghost place = choose|k: int| 0 <= k < nodes@.len() && nodes@[k] == node;
    let mut lo: usize = 0;
    let mut hi: usize = nodes.len();
    while hi - lo > 1
        invariant
            forall|a: int, b: int| 0 <= a < b < nodes@.len() ==> nodes@[a] < nodes@[b],
            0 <= place < nodes@.len(),
            nodes@[place] == node,
            lo <= place < hi <= nodes@.len(),
        decreases hi - lo,
    {
        let mid = lo + (hi - lo) / 2;
        if nodes[mid] <= node {
            lo = mid;
        } else {
            hi = mid;
        }
    }
    lo
}

/// The places of the nodes that have a rank.
pub open spec fn ranked_places(ranks: Seq<usize>) -> Set<int> {
    Set::new(|p: int| 0 <= p < ranks.len() && ranks[p] != 0)
}

/// Whether every node that has a rank depends only on nodes of smaller rank.
pub open spec fn settled(g: GraphView, nodes: Seq<usize>, ranks: Seq<usize>) -> bool {
    forall|p: int| 0 <= p < ranks.len() && ranks[p] != 0 ==> ranked_below(g, nodes, ranks, p)
}

/// The places that have a rank are finitely many, no more than there are
/// places.
proof fn lemma_ranked_places_bounded(ranks: Seq<usize>)
    ensures
        ranked_places(ranks).finite(),
        ranked_places(ranks).len() <= ranks.len(),
{
    lemma_int_range(0, ranks.len() as int);
    lemma_len_subset(ranked_places(ranks), set_int_range(0, ranks.len() as int));
}

/// Giving a rank to a place that had none makes one more place ranked.
proof fn lemma_ranked_places_grow(ranks: Seq<usize>, at: int, rank: usize)
    requires
        0 <= at < ranks.len(),
        ranks[at] == 0,
        rank != 0,
    ensures
        ranked_places(ranks.update(at, rank)).len() == ranked_places(ranks).len() + 1,
        ranked_places(ranks).len() < ranks.len(),
{
    lemma_ranked_places_bounded(ranks);
    lemma_ranked_places_bounded(ranks.update(at, rank));
    assert(ranked_places(ranks.update(at, rank)) =~= ranked_places(ranks).insert(at));
}

/// Where as many places are ranked as there are places, every place is
/// ranked; where fewer are, some place is not.
proof fn lemma_ranked_places_full(ranks: Seq<usize>)
    ensures
        ranked_places(ranks).len() == ranks.len() ==> forall|p: int|
            0 <= p < ranks.len() ==> ranks[p] != 0,
        ranked_places(ranks).len() < ranks.len() ==> exists|p: int|
            0 <= p < ranks.len() && ranks[p] == 0,
{
    let all = set_int_range(0, ranks.len() as int);
    lemma_int_range(0, ranks.len() as int);
    lemma_ranked_places_bounded(ranks);
    if ranked_places(ranks).len() == ranks.len() {
        lemma_subset_equality(ranked_places(ranks), all);
        assert forall|p: int| 0 <= p < ranks.len() implies ranks[p] != 0 by {
            assert(all.contains(p));
        }
    } else {
        if forall|p: int| 0 <= p < ranks.len() ==> ranks[p] != 0 {
            assert(all.subset_of(ranked_places(ranks)));
            lemma_len_subset(all, ranked_places(ranks));
        }
    }
}

/// Ranks under which every node depends only on nodes of smaller rank, and
/// every node has a rank, rank the graph.
proof fn lemma_all_ranked_means_acyclic(g: GraphView, nodes: Seq<usize>, ranks: Seq<usize>)
    requires
        lists_nodes(g, nodes),
        ranks.len() == nodes.len(),
        settled(g, nodes, ranks),
        forall|p: int| 0 <= p < ranks.len() ==> ranks[p] != 0,
    ensures
        g.acyclic(),
{
    let n = nodes.len();
    let rank = Map::<usize, nat>::new(
        |m: usize| true,
        |m: usize| ranks[choose|q: int| 0 <= q < n && nodes[q] == m] as nat,
    );
    assert forall|x: usize, m: usize| g.has(x) && #[trigger] g.has_edge(x, m) implies rank[m]
        < rank[x] by {
        assert(nodes.contains(x));
        let p = choose|p: int| 0 <= p < n && nodes[p] == x;
        assert(ranks[p] != 0);
        assert(ranked_below(g, nodes, ranks, p));
        let q = choose|q: int|
            0 <= q < nodes.len() && nodes[q] == m && 0 < #[trigger] ranks[q] < ranks[p];
        let chosen = choose|c: int| 0 <= c < n && nodes[c] == m;
        if chosen < q {
            assert(nodes[chosen] < nodes[q]);
        } else if q < chosen {
            assert(nodes[q] < nodes[chosen]);
        }
    }
    assert(g.ranked_by(rank));
}

/// Where some node has no rank, and every node without a rank depends on
/// another node without a rank, the graph has a cycle.
proof fn lemma_all_blocked_means_cyclic(
    g: GraphView,
    nodes: Seq<usize>,
    ranks: Seq<usize>,
    pass: usize,
    first: int,
)
    requires
        lists_nodes(g, nodes),
        ranks.len() == nodes.len(),
        0 <= first < ranks.len(),
        ranks[first] == 0,
        forall|p: int| 0 <= p < ranks.len() ==> ranks[p] < pass,
        forall|p: int| 0 <= p < ranks.len() && ranks[p] == 0 ==> blocked(g, nodes, ranks, pass, p),
    ensures
        !g.acyclic(),
{
    let n = nodes.len();
    let stuck = Set::<usize>::new(
        |x: usize| exists|p: int| 0 <= p < n && nodes[p] == x && ranks[p] == 0,
    );
    assert(stuck.contains(nodes[first]));
    assert forall|x: usize| #[trigger] stuck.contains(x) implies g.has(x) && exists|m: usize| #[trigger]
        g.has_edge(x, m) && stuck.contains(m) by {
        let p = choose|p: int| 0 <= p < n && nodes[p] == x && ranks[p] == 0;
        assert(nodes.contains(x));
        assert(blocked(g, nodes, ranks, pass, p));
        let (m, q) = choose|m: usize, q: int|
            #![trigger g.has_edge(nodes[p], m), ranks[q]]
            g.has_edge(nodes[p], m) && 0 <= q < nodes.len() && nodes[q] == m && !(0 < ranks[q]
                < pass);
        assert(ranks[q] < pass);
        assert(stuck.contains(m));
    }
    if g.acyclic() {
        lemma_stuck_nodes_have_no_rank(g, stuck, g.ranking(), nodes[first]);
    }
}

impl Graph {
    /// Whether the node at place `at` depends only on nodes that a pass
    /// before `pass` has ranked.
    fn is_ready(&self, nodes: &Vec<usize>, ranks: &Vec<usize>, at: usize, pass: usize) -> (r: bool)
        requires
            lists_nodes(self@, nodes@),
            ranks@.len() == nodes@.len(),
            at < nodes@.len(),
        ensures
            r ==> forall|m: usize| #[trigger]
                self@.has_edge(nodes@[at as int], m) ==> exists|q: int|
                    0 <= q < nodes@.len() && nodes@[q] == m && 0 < #[trigger] ranks@[q] < pass,
            !r ==> blocked(self@, nodes@, ranks@, pass, at as int),
    {
        let ghost g = self@;
        let node = nodes[at];
        assert(nodes@.contains(node));
        let edges = self.dependencies(node);
        let mut ready = true;
        let ghost mut culprit: int = 0;
        let mut j: usize = 0;
        while j < edges.len()
            invariant
                g == self@,
                lists_nodes(g, nodes@),
                ranks@.len() == nodes@.len(),
                node == nodes@[at as int],
                j <= edges@.len(),
                edges@ == g.dependencies[node],
                forall|e: int| 0 <= e < edges@.len() ==> g.has((#[trigger] edges@[e]).0),
                ready ==> forall|e: int|
                    0 <= e < j ==> exists|q: int|
                        0 <= q < nodes@.len() && nodes@[q] == (#[trigger] edges@[e]).0 && 0
                            < #[trigger] ranks@[q] < pass,
                !ready ==> 0 <= culprit < nodes@.len() && g.has_edge(node, nodes@[culprit]) && !(0
                    < ranks@[culprit] < pass),
            decreases edges@.len() - j,
        {
            let target = edges[j].0;
            assert(nodes@.contains(target));
            let q = position_of(nodes, target);
            if ranks[q] == 0 || ranks[q] >= pass {
                ready = false;
                proof {
                    culprit = q as int;
                    assert(g.dependencies[node][j as int].0 == target);
                }
            }
            j += 1;
        }
        proof {
            if ready {
                assert forall|m: usize| #[trigger] g.has_edge(node, m) implies exists|q: int|
                    0 <= q < nodes@.len() && nodes@[q] == m && 0 < #[trigger] ranks@[q] < pass by {
                    let e = choose|e: int|
                        0 <= e < g.dependencies[node].len() && (
                        #[trigger] g.dependencies[node][e]).0 == m;
                    assert(edges@[e].0 == m);
                }
            } else {
                let m = nodes@[culprit];
                assert(g.has_edge(nodes@[at as int], m) && 0 <= culprit < nodes@.len()
                    && nodes@[culprit] == m && !(0 < ranks@[culprit] < pass));
            }
        }
        ready
    }

    /// Gives the rank `pass` to every node without a rank that depends only
    /// on nodes ranked before this pass, and says how many nodes are left
    /// without a rank.
    fn rank_pass(&self, nodes: &Vec<usize>, ranks: &mut Vec<usize>, pass: usize, unranked: usize) -> (left:
        usize)
        requires
            lists_nodes(self@, nodes@),
            old(ranks)@.len() == nodes@.len(),
            1 <= pass,
            forall|p: int| 0 <= p < old(ranks)@.len() ==> old(ranks)@[p] < pass,
            settled(self@, nodes@, old(ranks)@),
            unranked + ranked_places(old(ranks)@).len() == nodes@.len(),
        ensures
            final(ranks)@.len() == nodes@.len(),
            forall|p: int| 0 <= p < final(ranks)@.len() ==> final(ranks)@[p] <= pass,
            settled(self@, nodes@, final(ranks)@),
            left + ranked_places(final(ranks)@).len() == nodes@.len(),
            left <= unranked,
            left == unranked ==> final(ranks)@ == old(ranks)@ && forall|p: int|
                0 <= p < final(ranks)@.len() && final(ranks)@[p] == 0 ==> blocked(
                    self@,
                    nodes@,
                    final(ranks)@,
                    pass,
                    p,
                ),
    {
        let ghost g = self@;
        let n = nodes.len();
        let mut left = unranked;
        let mut i: usize = 0;
        while i < n
            invariant
                g == self@,
                lists_nodes(g, nodes@),
                n == nodes@.len(),
                ranks@.len() == n,
                i <= n,
                1 <= pass,
                left + ranked_places(ranks@).len() == n,
                left <= unranked,
                forall|p: int| 0 <= p < n ==> ranks@[p] <= pass,
                settled(g, nodes@, ranks@),
                left == unranked ==> ranks@ == old(ranks)@ && forall|p: int|
                    0 <= p < i && ranks@[p] == 0 ==> blocked(g, nodes@, ranks@, pass, p),
            decreases n - i,
        {
            if ranks[i] == 0 && self.is_ready(nodes, ranks, i, pass) {
                let ghost before = ranks@;
                proof {
                    lemma_ranked_places_grow(before, i as int, pass);
                }
                ranks.set(i, pass);
                left = left - 1;
                proof {
                    assert(ranks@ == before.update(i as int, pass));
                    assert forall|p: int| 0 <= p < n && ranks@[p] != 0 implies ranked_below(
                        g,
                        nodes@,
                        ranks@,
                        p,
                    ) by {
                        assert forall|m: usize| #[trigger]
                            g.has_edge(nodes@[p], m) implies exists|q: int|
                            0 <= q < nodes@.len() && nodes@[q] == m && 0 < #[trigger] ranks@[q]
                                < ranks@[p] by {
                            if p == i {
                                let q = choose|q: int|
                                    0 <= q < nodes@.len() && nodes@[q] == m && 0
                                        < #[trigger] before[q] < pass;
                                assert(ranks@[q] == before[q]);
                            } else {
                                assert(ranked_below(g, nodes@, before, p));
                                let q = choose|q: int|
                                    0 <= q < nodes@.len() && nodes@[q] == m && 0
                                        < #[trigger] before[q] < before[p];
                                assert(ranks@[q] == before[q]);
                            }
                        }
                    }
                }
            }
            i += 1;
        }
        left
    }

    /// Whether the graph has no cycle.
    pub fn is_acyclic(&self) -> (r: bool)
        ensures
            r == self@.acyclic(),
    {
        let ghost g = self@;
        let nodes = self.node_indices();
        let n = nodes.len();
        let mut ranks: Vec<usize> = vec![0; n];
        let mut unranked: usize = n;
        let mut pass: usize = 1;
        proof {
            lemma_ranked_places_bounded(ranks@);
            assert(ranked_places(ranks@) =~= Set::<int>::empty());
        }
        if unranked == 0 {
            proof {
                lemma_all_ranked_means_acyclic(g, nodes@, ranks@);
            }
            return true;
        }
        loop
            invariant
                g == self@,
                lists_nodes(g, nodes@),
                n == nodes@.len(),
                ranks@.len() == n,
                unranked + ranked_places(ranks@).len() == n,
                unranked > 0,
                1 <= pass,
                pass + unranked <= n + 1,
                forall|p: int| 0 <= p < n ==> ranks@[p] < pass,
                settled(g, nodes@, ranks@),
            decreases unranked,
        {
            let left = self.rank_pass(&nodes, &mut ranks, pass, unranked);
            if left == unranked {
                proof {
                    lemma_ranked_places_full(ranks@);
                    let first = choose|p: int| 0 <= p < ranks@.len() && ranks@[p] == 0;
                    lemma_all_blocked_means_cyclic(g, nodes@, ranks@, pass, first);
                }
                return false;
            }
            if left == 0 {
                proof {
                    lemma_ranked_places_full(ranks@);
                    lemma_all_ranked_means_acyclic(g, nodes@, ranks@);
                }
                return true;
            }
            unranked = left;
            pass = pass + 1;
        }
    }
}

} // verus!
