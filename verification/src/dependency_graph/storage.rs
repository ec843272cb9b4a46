//! What the tree does not depend on: the order in which the graph holds its
//! edges.

use vstd::prelude::*;
use crate::dependency_graph::order::{
    dependencies, lemma_dependencies_ignore_edge_order, lemma_dependency_is_edge,
    lemma_same_edges, same_but_for_edge_order,
};
use crate::dependency_graph::reach::{closed, distinct_ids};
use crate::dependency_graph::walk::{
    each, group, lemma_dependency_ranks_lower, lemma_each_unfold, lemma_group_unfold,
    lemma_unvisited_monotone, lemma_unvisited_shrinks, lemma_visit_expanded, lemma_visit_stops,
    shown, shows, visit, visited_after, weight, LineView,
};
use crate::dependency_graph::GraphView;
use crate::dependency_rule::RuleView;
use crate::package::DependencyKind;

verus! {

/// A graph that differs from a graph without cycles in the order of its
/// edges only has no cycle either.
pub proof fn lemma_acyclic_whatever_the_edge_order(g: GraphView, h: GraphView)
    requires
        same_but_for_edge_order(g, h),
        g.acyclic(),
    ensures
        h.acyclic(),
{
    let rank = g.ranking();
    assert forall|n: usize, m: usize| h.has(n) && #[trigger] h.has_edge(n, m) implies rank[m]
        < rank[n] by {
        lemma_same_edges(g, h, n, m);
    }
    assert(h.ranked_by(rank));
}

/// What has been seen after some lines depends on the packages of the graph
/// only.
pub proof fn lemma_seen_whatever_the_edge_order(
    g: GraphView,
    h: GraphView,
    visited: Set<Seq<char>>,
    lines: Seq<LineView>,
)
    requires
        g.packages == h.packages,
    ensures
        visited_after(g, visited, lines) == visited_after(h, visited, lines),
{
    assert forall|id: Seq<char>| shown(g, lines).contains(id) == shown(h, lines).contains(id) by {
        if shown(g, lines).contains(id) {
            let i = choose|i: int| 0 <= i < lines.len() && shows(g, #[trigger] lines[i], id);
            assert(shows(h, lines[i], id));
        }
        if shown(h, lines).contains(id) {
            let i = choose|i: int| 0 <= i < lines.len() && shows(h, #[trigger] lines[i], id);
            assert(shows(g, lines[i], id));
        }
    }
    assert(shown(g, lines) =~= shown(h, lines));
}

/// The lines below a node are the same in two graphs that differ in the
/// order of their edges only.
///
/// The graphs are such that their edges lead to their own nodes and that no
/// two nodes hold the same identifier.
pub proof fn lemma_visit_ignores_edge_order(
    g: GraphView,
    h: GraphView,
    rules: Seq<RuleView>,
    all: bool,
    parent: Option<usize>,
    node: usize,
    levels: Seq<bool>,
    visited: Set<Seq<char>>,
)
    requires
        same_but_for_edge_order(g, h),
        closed(g),
        distinct_ids(g),
        all ==> g.acyclic(),
    ensures
        visit(g, rules, all, parent, node, levels, visited) == visit(
            h,
            rules,
            all,
            parent,
            node,
            levels,
            visited,
        ),
    decreases weight(g, all, node, visited), (if all { 3nat } else { 0nat }), 0nat,
{
    if all {
        lemma_acyclic_whatever_the_edge_order(g, h);
    }
    let id = g.packages[node].id;
    if !g.has(node) || (!all && visited.contains(id)) {
        lemma_visit_stops(g, rules, all, parent, node, levels, visited);
        lemma_visit_stops(h, rules, all, parent, node, levels, visited);
    } else {
        lemma_visit_expanded(g, rules, all, parent, node, levels, visited);
        lemma_visit_expanded(h, rules, all, parent, node, levels, visited);
        let inside = visited.insert(id);
        let normal = group(g, rules, all, node, DependencyKind::Normal, levels, inside);
        let seen_normal = visited_after(g, inside, normal);
        let build = group(g, rules, all, node, DependencyKind::Build, levels, seen_normal);
        let seen_build = visited_after(g, seen_normal, build);
        if !all {
            lemma_unvisited_shrinks(g, visited, inside, node);
            lemma_unvisited_shrinks(g, visited, seen_normal, node);
            lemma_unvisited_shrinks(g, visited, seen_build, node);
        }
        lemma_group_ignores_edge_order(g, h, rules, all, node, DependencyKind::Normal, levels, inside);
        lemma_seen_whatever_the_edge_order(g, h, inside, normal);
        lemma_group_ignores_edge_order(
            g,
            h,
            rules,
            all,
            node,
            DependencyKind::Build,
            levels,
            seen_normal,
        );
        lemma_seen_whatever_the_edge_order(g, h, seen_normal, build);
        lemma_group_ignores_edge_order(
            g,
            h,
            rules,
            all,
            node,
            DependencyKind::Development,
            levels,
            seen_build,
        );
    }
}

/// The lines of a group are the same in two graphs that differ in the order
/// of their edges only.
pub proof fn lemma_group_ignores_edge_order(
    g: GraphView,
    h: GraphView,
    rules: Seq<RuleView>,
    all: bool,
    node: usize,
    kind: DependencyKind,
    levels: Seq<bool>,
    visited: Set<Seq<char>>,
)
    requires
        same_but_for_edge_order(g, h),
        closed(g),
        distinct_ids(g),
        all ==> g.acyclic(),
        g.has(node),
    ensures
        group(g, rules, all, node, kind, levels, visited) == group(
            h,
            rules,
            all,
            node,
            kind,
            levels,
            visited,
        ),
    decreases weight(g, all, node, visited), 2nat, 0nat,
{
    if all {
        lemma_acyclic_whatever_the_edge_order(g, h);
    }
    lemma_group_unfold(g, rules, all, node, kind, levels, visited);
    lemma_group_unfold(h, rules, all, node, kind, levels, visited);
    lemma_dependencies_ignore_edge_order(g, h, node, kind);
    lemma_each_ignores_edge_order(g, h, rules, all, node, kind, levels, visited, 0);
}

/// The lines of the dependencies of a node are the same in two graphs that
/// differ in the order of their edges only.
pub proof fn lemma_each_ignores_edge_order(
    g: GraphView,
    h: GraphView,
    rules: Seq<RuleView>,
    all: bool,
    node: usize,
    kind: DependencyKind,
    levels: Seq<bool>,
    visited: Set<Seq<char>>,
    from: nat,
)
    requires
        same_but_for_edge_order(g, h),
        closed(g),
        distinct_ids(g),
        all ==> g.acyclic(),
        g.has(node),
    ensures
        each(g, rules, all, node, kind, levels, visited, from) == each(
            h,
            rules,
            all,
            node,
            kind,
            levels,
            visited,
            from,
        ),
    decreases weight(g, all, node, visited), 1nat, dependencies(g, node, kind).len() - from,
{
    if all {
        lemma_acyclic_whatever_the_edge_order(g, h);
    }
    lemma_each_unfold(g, rules, all, node, kind, levels, visited, from);
    lemma_each_unfold(h, rules, all, node, kind, levels, visited, from);
    lemma_dependencies_ignore_edge_order(g, h, node, kind);
    let deps = dependencies(g, node, kind);
    if from < deps.len() {
        let child = deps[from as int];
        let below = levels.push(from + 1 < deps.len());
        let first = visit(g, rules, all, Some(node), child, below, visited);
        let seen = visited_after(g, visited, first);
        lemma_dependency_is_edge(g, node, kind, from as int);
        if all {
            lemma_dependency_ranks_lower(g, node, kind, from as int);
        } else {
            lemma_unvisited_monotone(g, visited, seen);
        }
        lemma_visit_ignores_edge_order(g, h, rules, all, Some(node), child, below, visited);
        lemma_seen_whatever_the_edge_order(g, h, visited, first);
        lemma_each_ignores_edge_order(g, h, rules, all, node, kind, levels, seen, from + 1);
    }
}

} // verus!
