//! The order in which the tree shows the dependencies of a package.

use vstd::prelude::*;
use vstd::relations::{sorted_by, total_ordering};
use vstd::seq_lib::lemma_sorted_unique;
use crate::dependency_graph::{Graph, GraphView};
use crate::package::DependencyKind;
use crate::text::{lemma_text_le_total_order, str_le, text_le};

verus! {


/// The targets of the edges of one kind, in the order of the edges.
pub open spec fn targets_of_kind(edges: Seq<(usize, DependencyKind)>, kind: DependencyKind) -> Seq<
    usize,
>
    decreases edges.len(),
{
    if edges.len() == 0 {
        Seq::empty()
    } else {
        let before = targets_of_kind(edges.drop_last(), kind);
        if edges.last().1 == kind {
            before.push(edges.last().0)
        } else {
            before
        }
    }
}

/// Whether the identifier of node `a` is at most that of node `b`.
pub open spec fn id_le(g: GraphView, a: usize, b: usize) -> bool {
    text_le(g.packages[a].id, g.packages[b].id)
}

/// Whether the nodes of `s` stand in ascending order of their identifiers.
pub open spec fn ascending(g: GraphView, s: Seq<usize>) -> bool {
    forall|i: int, j: int| 0 <= i < j < s.len() ==> #[trigger] id_le(g, s[i], s[j])
}

/// `sorted` with `x` put behind the last node whose identifier is at most
/// that of `x`.
pub open spec fn insert_by_id(g: GraphView, sorted: Seq<usize>, x: usize) -> Seq<usize>
    decreases sorted.len(),
{
    if sorted.len() == 0 || id_le(g, sorted.last(), x) {
        sorted.push(x)
    } else {
        insert_by_id(g, sorted.drop_last(), x).push(sorted.last())
    }
}

/// The nodes of `s` in ascending order of their identifiers. Nodes with the
/// same identifier keep the order they have in `s`.
pub open spec fn sort_by_id(g: GraphView, s: Seq<usize>) -> Seq<usize>
    decreases s.len(),
{
    if s.len() == 0 {
        Seq::empty()
    } else {
        insert_by_id(g, sort_by_id(g, s.drop_last()), s.last())
    }
}

/// The nodes that `node` depends on by edges of one kind, in ascending order
/// of their identifiers: the order in which the tree shows them.
pub open spec fn dependencies(g: GraphView, node: usize, kind: DependencyKind) -> Seq<usize> {
    sort_by_id(g, targets_of_kind(g.dependencies[node], kind))
}

/// Putting `x` at place `at` is what `insert_by_id` does, where every node
/// from `at` on has a larger identifier than `x` and the node before `at`,
/// if there is one, has not.
proof fn lemma_insert_at(g: GraphView, sorted: Seq<usize>, x: usize, at: int)
    requires
        0 <= at <= sorted.len(),
        forall|k: int| at <= k < sorted.len() ==> !id_le(g, sorted[k], x),
        at > 0 ==> id_le(g, sorted[at - 1], x),
    ensures
        insert_by_id(g, sorted, x) == sorted.insert(at, x),
    decreases sorted.len() - at,
{
    if at == sorted.len() {
        assert(sorted.insert(at, x) =~= sorted.push(x));
    } else {
        lemma_insert_at(g, sorted.drop_last(), x, at);
        assert(sorted.drop_last().insert(at, x).push(sorted.last()) =~= sorted.insert(at, x));
    }
}

/// Inserting keeps the nodes and adds one.
pub proof fn lemma_insert_by_id_multiset(g: GraphView, sorted: Seq<usize>, x: usize)
    ensures
        insert_by_id(g, sorted, x).to_multiset() == sorted.to_multiset().insert(x),
        insert_by_id(g, sorted, x).len() == sorted.len() + 1,
    decreases sorted.len(),
{
    broadcast use vstd::seq_lib::group_to_multiset_ensures;

    if sorted.len() == 0 || id_le(g, sorted.last(), x) {
    } else {
        lemma_insert_by_id_multiset(g, sorted.drop_last(), x);
        assert(sorted.drop_last().push(sorted.last()) =~= sorted);
        assert(insert_by_id(g, sorted, x).to_multiset() =~= sorted.to_multiset().insert(x));
    }
}

/// Sorting rearranges: what comes out holds each node as often as what went
/// in.
pub proof fn lemma_sort_by_id_permutes(g: GraphView, s: Seq<usize>)
    ensures
        sort_by_id(g, s).to_multiset() == s.to_multiset(),
        sort_by_id(g, s).len() == s.len(),
    decreases s.len(),
{
    broadcast use vstd::seq_lib::group_to_multiset_ensures;

    if s.len() == 0 {
    } else {
        lemma_sort_by_id_permutes(g, s.drop_last());
        lemma_insert_by_id_multiset(g, sort_by_id(g, s.drop_last()), s.last());
        assert(s.drop_last().push(s.last()) =~= s);
    }
}

/// What `insert_by_id` gives holds `x` and the nodes of `sorted`, no others.
proof fn lemma_insert_by_id_members(g: GraphView, sorted: Seq<usize>, x: usize, y: usize)
    ensures
        insert_by_id(g, sorted, x).contains(y) <==> (y == x || sorted.contains(y)),
    decreases sorted.len(),
{
    let r = insert_by_id(g, sorted, x);
    if sorted.len() == 0 || id_le(g, sorted.last(), x) {
        if r.contains(y) {
            let i = choose|i: int| 0 <= i < r.len() && r[i] == y;
            if i < sorted.len() {
                assert(sorted[i] == y);
            }
        }
        if sorted.contains(y) {
            let i = choose|i: int| 0 <= i < sorted.len() && sorted[i] == y;
            assert(r[i] == y);
        }
        if y == x {
            assert(r[sorted.len() as int] == y);
        }
    } else {
        let shorter = sorted.drop_last();
        let inner = insert_by_id(g, shorter, x);
        lemma_insert_by_id_members(g, shorter, x, y);
        if r.contains(y) {
            let i = choose|i: int| 0 <= i < r.len() && r[i] == y;
            if i < inner.len() {
                assert(inner[i] == y);
                assert(inner.contains(y));
                if shorter.contains(y) {
                    let j = choose|j: int| 0 <= j < shorter.len() && shorter[j] == y;
                    assert(sorted[j] == y);
                }
            } else {
                assert(sorted[sorted.len() - 1] == y);
            }
        }
        if sorted.contains(y) {
            let i = choose|i: int| 0 <= i < sorted.len() && sorted[i] == y;
            if i < shorter.len() {
                assert(shorter[i] == y);
                assert(shorter.contains(y));
                assert(inner.contains(y));
                let j = choose|j: int| 0 <= j < inner.len() && inner[j] == y;
                assert(r[j] == y);
            } else {
                assert(r[inner.len() as int] == y);
            }
        }
        if y == x {
            assert(inner.contains(x));
            let j = choose|j: int| 0 <= j < inner.len() && inner[j] == x;
            assert(r[j] == x);
        }
    }
}

/// Inserting into an ascending sequence gives an ascending sequence.
proof fn lemma_insert_by_id_ascending(g: GraphView, sorted: Seq<usize>, x: usize)
    requires
        ascending(g, sorted),
    ensures
        ascending(g, insert_by_id(g, sorted, x)),
    decreases sorted.len(),
{
    let r = insert_by_id(g, sorted, x);
    if sorted.len() == 0 {
    } else if id_le(g, sorted.last(), x) {
        assert forall|i: int, j: int| 0 <= i < j < r.len() implies id_le(g, r[i], r[j]) by {
            if j == sorted.len() {
                if i < sorted.len() - 1 {
                    assert(id_le(g, sorted[i], sorted.last()));
                }
                lemma_text_le_total_order(
                    g.packages[sorted[i]].id,
                    g.packages[sorted.last()].id,
                    g.packages[x].id,
                );
            }
        }
    } else {
        let shorter = sorted.drop_last();
        let inner = insert_by_id(g, shorter, x);
        assert(ascending(g, shorter)) by {
            assert forall|i: int, j: int| 0 <= i < j < shorter.len() implies id_le(
                g,
                shorter[i],
                shorter[j],
            ) by {
                assert(id_le(g, sorted[i], sorted[j]));
            }
        }
        lemma_insert_by_id_ascending(g, shorter, x);
        assert forall|i: int, j: int| 0 <= i < j < r.len() implies id_le(g, r[i], r[j]) by {
            if j == inner.len() {
                assert(inner.contains(inner[i]));
                lemma_insert_by_id_members(g, shorter, x, inner[i]);
                if inner[i] == x {
                    lemma_text_le_total_order(
                        g.packages[x].id,
                        g.packages[sorted.last()].id,
                        g.packages[x].id,
                    );
                } else {
                    assert(shorter.contains(inner[i]));
                    let k = choose|k: int| 0 <= k < shorter.len() && shorter[k] == inner[i];
                    assert(0 <= k < sorted.len() - 1);
                    assert(sorted[k] == inner[i]);
                    assert(id_le(g, sorted[k], sorted[sorted.len() - 1]));
                }
            } else {
                assert(id_le(g, inner[i], inner[j]));
            }
        }
    }
}

/// What `sort_by_id` gives stands in ascending order of identifiers.
pub proof fn lemma_sort_by_id_ascending(g: GraphView, s: Seq<usize>)
    ensures
        ascending(g, sort_by_id(g, s)),
    decreases s.len(),
{
    if s.len() > 0 {
        lemma_sort_by_id_ascending(g, s.drop_last());
        lemma_insert_by_id_ascending(g, sort_by_id(g, s.drop_last()), s.last());
    }
}

/// Every member of `targets_of_kind` is the target of one of the edges.
proof fn lemma_targets_are_targets(edges: Seq<(usize, DependencyKind)>, kind: DependencyKind, y: usize)
    requires
        targets_of_kind(edges, kind).contains(y),
    ensures
        exists|i: int| 0 <= i < edges.len() && (#[trigger] edges[i]).0 == y,
    decreases edges.len(),
{
    if edges.len() > 0 {
        let before = targets_of_kind(edges.drop_last(), kind);
        let t = targets_of_kind(edges, kind);
        let k = choose|k: int| 0 <= k < t.len() && t[k] == y;
        if edges.last().1 == kind && k == before.len() {
            assert(edges[edges.len() - 1].0 == y);
        } else {
            assert(before[k] == y);
            lemma_targets_are_targets(edges.drop_last(), kind, y);
            let i = choose|i: int|
                0 <= i < edges.drop_last().len() && (#[trigger] edges.drop_last()[i]).0 == y;
            assert(edges[i].0 == y);
        }
    }
}

/// Every member of `sort_by_id(g, s)` is a member of `s`.
proof fn lemma_sort_by_id_members(g: GraphView, s: Seq<usize>, y: usize)
    requires
        sort_by_id(g, s).contains(y),
    ensures
        s.contains(y),
    decreases s.len(),
{
    if s.len() > 0 {
        lemma_insert_by_id_members(g, sort_by_id(g, s.drop_last()), s.last(), y);
        if y == s.last() {
            assert(s[s.len() - 1] == y);
        } else {
            lemma_sort_by_id_members(g, s.drop_last(), y);
            let i = choose|i: int| 0 <= i < s.drop_last().len() && s.drop_last()[i] == y;
            assert(s[i] == y);
        }
    }
}

/// Each dependency of a node is the target of an edge that leaves the node.
pub proof fn lemma_dependency_is_edge(g: GraphView, node: usize, kind: DependencyKind, i: int)
    requires
        0 <= i < dependencies(g, node, kind).len(),
    ensures
        g.has_edge(node, dependencies(g, node, kind)[i]),
{
    let y = dependencies(g, node, kind)[i];
    assert(dependencies(g, node, kind).contains(y));
    lemma_sort_by_id_members(g, targets_of_kind(g.dependencies[node], kind), y);
    lemma_targets_are_targets(g.dependencies[node], kind, y);
}

/// The target of every edge of one kind is a member of `targets_of_kind`.
proof fn lemma_target_is_kept(edges: Seq<(usize, DependencyKind)>, kind: DependencyKind, e: int)
    requires
        0 <= e < edges.len(),
        edges[e].1 == kind,
    ensures
        targets_of_kind(edges, kind).contains(edges[e].0),
    decreases edges.len(),
{
    let before = targets_of_kind(edges.drop_last(), kind);
    let all = targets_of_kind(edges, kind);
    if e == edges.len() - 1 {
        assert(all[before.len() as int] == edges[e].0);
    } else {
        lemma_target_is_kept(edges.drop_last(), kind, e);
        assert(edges.drop_last()[e] == edges[e]);
        let k = choose|k: int| 0 <= k < before.len() && before[k] == edges[e].0;
        assert(all[k] == edges[e].0);
    }
}

/// Every member of `s` is a member of `sort_by_id(g, s)`.
proof fn lemma_sort_by_id_keeps(g: GraphView, s: Seq<usize>, y: usize)
    requires
        s.contains(y),
    ensures
        sort_by_id(g, s).contains(y),
    decreases s.len(),
{
    if s.len() > 0 {
        lemma_insert_by_id_members(g, sort_by_id(g, s.drop_last()), s.last(), y);
        if y != s.last() {
            let i = choose|i: int| 0 <= i < s.len() && s[i] == y;
            assert(s.drop_last()[i] == y);
            lemma_sort_by_id_keeps(g, s.drop_last(), y);
        }
    }
}

/// The target of every edge that leaves a node is one of the dependencies of
/// the node, of the kind of the edge.
pub proof fn lemma_edge_is_dependency(g: GraphView, node: usize, to: usize)
    requires
        g.has_edge(node, to),
    ensures
        exists|kind: DependencyKind, at: int|
            0 <= at < dependencies(g, node, kind).len() && #[trigger] dependencies(
                g,
                node,
                kind,
            )[at] == to,
{
    let edges = g.dependencies[node];
    let e = choose|e: int| 0 <= e < edges.len() && (#[trigger] edges[e]).0 == to;
    let kind = edges[e].1;
    lemma_target_is_kept(edges, kind, e);
    lemma_sort_by_id_keeps(g, targets_of_kind(edges, kind), to);
    let deps = dependencies(g, node, kind);
    let at = choose|at: int| 0 <= at < deps.len() && deps[at] == to;
    assert(dependencies(g, node, kind)[at] == to);
}

/// The order of nodes by identifier, with nodes of one identifier in the
/// order of their index: a total order of all nodes.
pub open spec fn id_then_index(g: GraphView) -> spec_fn(usize, usize) -> bool {
    |a: usize, b: usize|
        if g.packages[a].id == g.packages[b].id {
            a <= b
        } else {
            id_le(g, a, b)
        }
}

/// `id_then_index` is a total order.
proof fn lemma_id_then_index_total(g: GraphView)
    ensures
        total_ordering(id_then_index(g)),
{
    let leq = id_then_index(g);
    assert forall|x: usize, y: usize| #[trigger] leq(x, y) && #[trigger] leq(y, x) implies x
        == y by {
        lemma_text_le_total_order(g.packages[x].id, g.packages[y].id, g.packages[x].id);
    }
    assert forall|x: usize, y: usize| #[trigger] leq(x, y) || #[trigger] leq(y, x) by {
        lemma_text_le_total_order(g.packages[x].id, g.packages[y].id, g.packages[x].id);
    }
    assert forall|x: usize, y: usize, z: usize| #[trigger] leq(x, y) && #[trigger] leq(
        y,
        z,
    ) implies leq(x, z) by {
        lemma_text_le_total_order(g.packages[x].id, g.packages[y].id, g.packages[z].id);
        lemma_text_le_total_order(g.packages[y].id, g.packages[x].id, g.packages[z].id);
        lemma_text_le_total_order(g.packages[z].id, g.packages[y].id, g.packages[x].id);
    }
}

/// Whether no two different nodes of `s` have the same identifier.
pub open spec fn distinct_by_id(g: GraphView, s: Seq<usize>) -> bool {
    forall|x: usize, y: usize|
        #![trigger s.contains(x), s.contains(y)]
        s.contains(x) && s.contains(y) && g.packages[x].id == g.packages[y].id ==> x == y
}

/// The order in which dependencies are shown does not depend on the order in
/// which the graph holds them: two lists of the same nodes, none of which
/// shares its identifier with another, are sorted into the same list.
pub proof fn lemma_sort_by_id_ignores_order(g: GraphView, a: Seq<usize>, b: Seq<usize>)
    requires
        a.to_multiset() == b.to_multiset(),
        distinct_by_id(g, a),
    ensures
        sort_by_id(g, a) == sort_by_id(g, b),
{
    broadcast use vstd::seq_lib::group_to_multiset_ensures;

    let leq = id_then_index(g);
    let x = sort_by_id(g, a);
    let y = sort_by_id(g, b);
    lemma_id_then_index_total(g);
    lemma_sort_by_id_permutes(g, a);
    lemma_sort_by_id_permutes(g, b);
    lemma_sort_by_id_ascending(g, a);
    lemma_sort_by_id_ascending(g, b);
    assert forall|i: int, j: int| 0 <= i < j < x.len() implies leq(x[i], x[j]) by {
        assert(id_le(g, x[i], x[j]));
        assert(x.to_multiset().contains(x[i]) && x.to_multiset().contains(x[j]));
        assert(a.contains(x[i]) && a.contains(x[j]));
    }
    assert forall|i: int, j: int| 0 <= i < j < y.len() implies leq(y[i], y[j]) by {
        assert(id_le(g, y[i], y[j]));
        assert(y.to_multiset().contains(y[i]) && y.to_multiset().contains(y[j]));
        assert(a.contains(y[i]) && a.contains(y[j]));
    }
    assert(sorted_by(x, leq));
    assert(sorted_by(y, leq));
    lemma_sorted_unique(x, y, leq);
}

/// A node is a target of the edges of one kind as often as the edges hold
/// it with that kind.
proof fn lemma_targets_count(edges: Seq<(usize, DependencyKind)>, kind: DependencyKind, to: usize)
    ensures
        targets_of_kind(edges, kind).to_multiset().count(to) == edges.to_multiset().count(
            (to, kind),
        ),
    decreases edges.len(),
{
    broadcast use vstd::seq_lib::group_to_multiset_ensures;

    if edges.len() == 0 {
        assert(edges.to_multiset().count((to, kind)) == 0) by {
            if edges.to_multiset().count((to, kind)) > 0 {
                assert(edges.contains((to, kind)));
            }
        }
        assert(targets_of_kind(edges, kind).to_multiset().count(to) == 0) by {
            if targets_of_kind(edges, kind).to_multiset().count(to) > 0 {
                assert(targets_of_kind(edges, kind).contains(to));
            }
        }
    } else {
        lemma_targets_count(edges.drop_last(), kind, to);
        assert(edges.drop_last().push(edges.last()) =~= edges);
    }
}

/// The order of edges plays no part in which nodes are targets of one kind,
/// and how often.
pub proof fn lemma_targets_ignore_order(
    a: Seq<(usize, DependencyKind)>,
    b: Seq<(usize, DependencyKind)>,
    kind: DependencyKind,
)
    requires
        a.to_multiset() == b.to_multiset(),
    ensures
        targets_of_kind(a, kind).to_multiset() == targets_of_kind(b, kind).to_multiset(),
{
    assert forall|to: usize|
        targets_of_kind(a, kind).to_multiset().count(to) == targets_of_kind(
            b,
            kind,
        ).to_multiset().count(to) by {
        lemma_targets_count(a, kind, to);
        lemma_targets_count(b, kind, to);
    }
    assert(targets_of_kind(a, kind).to_multiset() =~= targets_of_kind(b, kind).to_multiset());
}

/// Sorting looks at the packages of the graph only.
pub proof fn lemma_sort_by_id_same_packages(g: GraphView, h: GraphView, s: Seq<usize>)
    requires
        g.packages == h.packages,
    ensures
        sort_by_id(g, s) == sort_by_id(h, s),
    decreases s.len(),
{
    if s.len() > 0 {
        lemma_sort_by_id_same_packages(g, h, s.drop_last());
        lemma_insert_by_id_same_packages(g, h, sort_by_id(g, s.drop_last()), s.last());
    }
}

/// Inserting looks at the packages of the graph only.
proof fn lemma_insert_by_id_same_packages(g: GraphView, h: GraphView, sorted: Seq<usize>, x: usize)
    requires
        g.packages == h.packages,
    ensures
        insert_by_id(g, sorted, x) == insert_by_id(h, sorted, x),
    decreases sorted.len(),
{
    if sorted.len() > 0 && !id_le(g, sorted.last(), x) {
        lemma_insert_by_id_same_packages(g, h, sorted.drop_last(), x);
    }
}

/// Whether two graphs hold the same packages at the same nodes and, at every
/// node, the same edges, in whatever order.
pub open spec fn same_but_for_edge_order(g: GraphView, h: GraphView) -> bool {
    &&& g.packages == h.packages
    &&& forall|n: usize| #[trigger]
        g.has(n) ==> g.dependencies[n].to_multiset() == h.dependencies[n].to_multiset()
}

/// Two graphs that differ in the order of their edges only have the same
/// edges.
pub proof fn lemma_same_edges(g: GraphView, h: GraphView, from: usize, to: usize)
    requires
        same_but_for_edge_order(g, h),
        g.has(from),
    ensures
        g.has_edge(from, to) == h.has_edge(from, to),
{
    broadcast use vstd::seq_lib::group_to_multiset_ensures;

    let a = g.dependencies[from];
    let b = h.dependencies[from];
    if g.has_edge(from, to) {
        let i = choose|i: int| 0 <= i < a.len() && (#[trigger] a[i]).0 == to;
        assert(a.contains(a[i]));
        assert(b.to_multiset().count(a[i]) > 0);
        assert(b.contains(a[i]));
        let j = choose|j: int| 0 <= j < b.len() && b[j] == a[i];
        assert(b[j].0 == to);
    }
    if h.has_edge(from, to) {
        let i = choose|i: int| 0 <= i < b.len() && (#[trigger] b[i]).0 == to;
        assert(b.contains(b[i]));
        assert(a.to_multiset().count(b[i]) > 0);
        assert(a.contains(b[i]));
        let j = choose|j: int| 0 <= j < a.len() && a[j] == b[i];
        assert(a[j].0 == to);
    }
}

/// The dependencies of a node, as the tree shows them, do not depend on the
/// order in which the graph holds its edges, where no two nodes that the
/// node depends on hold the same identifier.
pub proof fn lemma_dependencies_ignore_edge_order(
    g: GraphView,
    h: GraphView,
    node: usize,
    kind: DependencyKind,
)
    requires
        same_but_for_edge_order(g, h),
        g.has(node),
        forall|x: usize, y: usize|
            #![trigger g.has_edge(node, x), g.has_edge(node, y)]
            g.has_edge(node, x) && g.has_edge(node, y) && g.packages[x].id == g.packages[y].id
                ==> x == y,
    ensures
        dependencies(g, node, kind) == dependencies(h, node, kind),
{
    let a = targets_of_kind(g.dependencies[node], kind);
    let b = targets_of_kind(h.dependencies[node], kind);
    lemma_targets_ignore_order(g.dependencies[node], h.dependencies[node], kind);
    assert forall|x: usize, y: usize|
        #![trigger a.contains(x), a.contains(y)]
        a.contains(x) && a.contains(y) && g.packages[x].id == g.packages[y].id implies x == y by {
        lemma_targets_are_targets(g.dependencies[node], kind, x);
        lemma_targets_are_targets(g.dependencies[node], kind, y);
        assert(g.has_edge(node, x) && g.has_edge(node, y));
    }
    lemma_sort_by_id_ignores_order(g, a, b);
    lemma_sort_by_id_same_packages(g, h, b);
}

/// The nodes of one kind that a node of the graph depends on, in ascending
/// order of their identifiers.
pub fn sorted_dependencies(graph: &Graph, node: usize, kind: DependencyKind) -> (deps: Vec<usize>)
    requires
        graph@.has(node),
    ensures
        deps@ == dependencies(graph@, node, kind),
        forall|i: int| 0 <= i < deps@.len() ==> graph@.has(#[trigger] deps@[i]),
        forall|i: int| 0 <= i < deps@.len() ==> graph@.has_edge(node, #[trigger] deps@[i]),
{
    let edges = graph.dependencies(node);
    let mut deps: Vec<usize> = Vec::new();
    let mut i: usize = 0;
    while i < edges.len()
        invariant
            i <= edges@.len(),
            edges@ == graph@.dependencies[node],
            forall|k: int| 0 <= k < edges@.len() ==> graph@.has((#[trigger] edges@[k]).0),
            deps@ == sort_by_id(graph@, targets_of_kind(edges@.subrange(0, i as int), kind)),
            forall|k: int| 0 <= k < deps@.len() ==> graph@.has(#[trigger] deps@[k]),
            forall|k: int| 0 <= k < deps@.len() ==> graph@.has_edge(node, #[trigger] deps@[k]),
        decreases edges@.len() - i,
    {
        let (target, edge_kind) = edges[i];
        proof {
            assert(edges@.subrange(0, i + 1).drop_last() =~= edges@.subrange(0, i as int));
            assert(edges@.subrange(0, i + 1).last() == edges@[i as int]);
        }
        if edge_kind == kind {
            proof {
                let before = targets_of_kind(edges@.subrange(0, i as int), kind);
                assert(before.push(target).drop_last() =~= before);
            }
            let mut at: usize = deps.len();
            while at > 0 && !str_le(
                graph.package(deps[at - 1]).id.repr.as_str(),
                graph.package(target).id.repr.as_str(),
            )
                invariant
                    at <= deps@.len(),
                    graph@.has(target),
                    forall|k: int| 0 <= k < deps@.len() ==> graph@.has(#[trigger] deps@[k]),
                    forall|k: int| at <= k < deps@.len() ==> !id_le(graph@, deps@[k], target),
                decreases at,
            {
                at -= 1;
            }
            proof {
                lemma_insert_at(graph@, deps@, target, at as int);
            }
            let ghost before = deps@;
            deps.insert(at, target);
            proof {
                assert forall|k: int| 0 <= k < deps@.len() implies graph@.has(#[trigger] deps@[k])
                    && graph@.has_edge(node, deps@[k]) by {
                    if k < at {
                        assert(deps@[k] == before[k]);
                    } else if k == at {
                        assert(graph@.dependencies[node][i as int].0 == target);
                    } else {
                        assert(deps@[k] == before[k - 1]);
                    }
                }
            }
        }
        i += 1;
    }
    proof {
        assert(edges@.subrange(0, i as int) =~= edges@);
    }
    deps
}

} // verus!
