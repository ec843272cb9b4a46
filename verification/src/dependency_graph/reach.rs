//! What the tree finds: the edges that break a rule and can be reached from
//! its root.

use vstd::prelude::*;
use crate::dependency_graph::order::{
    dependencies, lemma_dependency_is_edge, lemma_edge_is_dependency,
};
use crate::dependency_graph::walk::{
    all_in_graph, any_violation, each, edge_violation, group, in_graph,
    lemma_any_violation_concat, lemma_dependency_ranks_lower, lemma_each_unfold,
    lemma_group_unfold, lemma_unvisited_monotone, lemma_unvisited_shrinks, lemma_visit_begins_with_node,
    lemma_visit_expanded, lemma_visit_stops, lemma_visited_after_concat, marks_violation, shows, shown, visit, visited_after,
    weight, LineView,
};
use crate::dependency_graph::GraphView;
use crate::dependency_rule::{rules_forbid, RuleView};
use crate::package::DependencyKind;

verus! {

/// Whether every edge that leaves a node of the graph leads to a node of the
/// graph.
pub open spec fn closed(g: GraphView) -> bool {
    forall|n: usize, m: usize| g.has(n) && #[trigger] g.has_edge(n, m) ==> g.has(m)
}

/// Whether no two nodes of the graph hold the same identifier.
pub open spec fn distinct_ids(g: GraphView) -> bool {
    forall|a: usize, b: usize|
        #![trigger g.has(a), g.has(b)]
        g.has(a) && g.has(b) && g.packages[a].id == g.packages[b].id ==> a == b
}

/// Whether `path` leads from node to node along edges of the graph.
pub open spec fn is_path(g: GraphView, path: Seq<usize>) -> bool {
    &&& path.len() >= 1
    &&& forall|i: int| 0 <= i < path.len() - 1 ==> g.has_edge(#[trigger] path[i], path[i + 1])
}

/// Whether `to` can be reached from `from` along edges of the graph. Every
/// node reaches itself.
pub open spec fn reaches(g: GraphView, from: usize, to: usize) -> bool {
    exists|path: Seq<usize>| #[trigger] is_path(g, path) && path[0] == from && path.last() == to
}

/// Whether an edge breaks a rule: the owner of some rule is the identifier
/// of the package that depends, and the rule forbids the identifier of the
/// package depended on.
pub open spec fn forbidden(g: GraphView, rules: Seq<RuleView>, from: usize, to: usize) -> bool {
    rules_forbid(rules, g.packages[from].id, g.packages[to].id)
}

/// Whether some edge that leaves a node reached from `node` breaks a rule.
pub open spec fn broken_below(g: GraphView, rules: Seq<RuleView>, node: usize) -> bool {
    exists|u: usize, v: usize|
        #![trigger reaches(g, node, u), g.has_edge(u, v)]
        reaches(g, node, u) && g.has_edge(u, v) && forbidden(g, rules, u, v)
}

/// Every node reaches itself.
pub proof fn lemma_reaches_itself(g: GraphView, node: usize)
    ensures
        reaches(g, node, node),
{
    let path = seq![node];
    assert(is_path(g, path) && path[0] == node && path.last() == node);
}

/// What a dependency reaches, the node that depends on it reaches too.
pub proof fn lemma_reaches_through_edge(g: GraphView, from: usize, next: usize, to: usize)
    requires
        g.has_edge(from, next),
        reaches(g, next, to),
    ensures
        reaches(g, from, to),
{
    let tail = choose|path: Seq<usize>|
        #[trigger] is_path(g, path) && path[0] == next && path.last() == to;
    let path = seq![from] + tail;
    assert forall|i: int| 0 <= i < path.len() - 1 implies g.has_edge(
        #[trigger] path[i],
        path[i + 1],
    ) by {
        if i > 0 {
            assert(path[i] == tail[i - 1] && path[i + 1] == tail[i]);
        } else {
            assert(path[1] == tail[0]);
        }
    }
    assert(is_path(g, path) && path[0] == from && path.last() == to);
}

/// What breaks a rule below a dependency breaks it below the node that
/// depends on it; and so does the edge to the dependency itself.
pub proof fn lemma_broken_below_rises(g: GraphView, rules: Seq<RuleView>, node: usize, next: usize)
    requires
        g.has_edge(node, next),
        broken_below(g, rules, next) || forbidden(g, rules, node, next),
    ensures
        broken_below(g, rules, node),
{
    if forbidden(g, rules, node, next) {
        lemma_reaches_itself(g, node);
        assert(reaches(g, node, node) && g.has_edge(node, next) && forbidden(g, rules, node, next));
    } else {
        let (u, v) = choose|u: usize, v: usize|
            #![trigger reaches(g, next, u), g.has_edge(u, v)]
            reaches(g, next, u) && g.has_edge(u, v) && forbidden(g, rules, u, v);
        lemma_reaches_through_edge(g, node, next, u);
        assert(reaches(g, node, u) && g.has_edge(u, v) && forbidden(g, rules, u, v));
    }
}

/// The lines below a node mark a violation only where the edge that leads to
/// the node breaks a rule, or an edge that can be reached from the node
/// does.
pub proof fn lemma_marked_means_broken_below(
    g: GraphView,
    rules: Seq<RuleView>,
    all: bool,
    parent: Option<usize>,
    node: usize,
    levels: Seq<bool>,
    visited: Set<Seq<char>>,
)
    requires
        all ==> g.acyclic(),
    ensures
        any_violation(visit(g, rules, all, parent, node, levels, visited)) ==> edge_violation(
            g,
            rules,
            parent,
            node,
        ) || broken_below(g, rules, node),
    decreases weight(g, all, node, visited), (if all { 3nat } else { 0nat }), 0nat,
{
    let id = g.packages[node].id;
    if !g.has(node) || (!all && visited.contains(id)) {
        lemma_visit_stops(g, rules, all, parent, node, levels, visited);
        let line = visit(g, rules, all, parent, node, levels, visited)[0];
        if any_violation(visit(g, rules, all, parent, node, levels, visited)) {
            assert(marks_violation(line));
        }
    } else {
        lemma_visit_expanded(g, rules, all, parent, node, levels, visited);
        let inside = visited.insert(id);
        let normal = group(g, rules, all, node, DependencyKind::Normal, levels, inside);
        let seen_normal = visited_after(g, inside, normal);
        let build = group(g, rules, all, node, DependencyKind::Build, levels, seen_normal);
        let seen_build = visited_after(g, seen_normal, build);
        if !all {
            lemma_unvisited_shrinks(g, visited, inside, node);
            lemma_unvisited_shrinks(g, visited, seen_normal, node);
            lemma_unvisited_shrinks(g, visited, seen_build, node);
        }
        lemma_marked_group_means_broken_below(
            g,
            rules,
            all,
            node,
            DependencyKind::Normal,
            levels,
            inside,
        );
        lemma_marked_group_means_broken_below(
            g,
            rules,
            all,
            node,
            DependencyKind::Build,
            levels,
            seen_normal,
        );
        lemma_marked_group_means_broken_below(
            g,
            rules,
            all,
            node,
            DependencyKind::Development,
            levels,
            seen_build,
        );
    }
}

/// The lines of a group mark a violation only where an edge that can be
/// reached from the node of the group breaks a rule.
pub proof fn lemma_marked_group_means_broken_below(
    g: GraphView,
    rules: Seq<RuleView>,
    all: bool,
    node: usize,
    kind: DependencyKind,
    levels: Seq<bool>,
    visited: Set<Seq<char>>,
)
    requires
        all ==> g.acyclic(),
    ensures
        any_violation(group(g, rules, all, node, kind, levels, visited)) ==> broken_below(
            g,
            rules,
            node,
        ),
    decreases weight(g, all, node, visited), 2nat, 0nat,
{
    lemma_group_unfold(g, rules, all, node, kind, levels, visited);
    let heading: Seq<LineView> = if dependencies(g, node, kind).len() > 0 && kind
        != DependencyKind::Normal {
        seq![LineView::Group { levels, kind }]
    } else {
        Seq::empty()
    };
    if heading.len() > 0 {
        assert(heading[0] == LineView::Group { levels, kind });
        if any_violation(heading) {
            let i = choose|i: int| 0 <= i < heading.len() && marks_violation(#[trigger] heading[i]);
        }
    }
    lemma_any_violation_concat(heading, each(g, rules, all, node, kind, levels, visited, 0));
    lemma_marked_each_means_broken_below(g, rules, all, node, kind, levels, visited, 0);
}

/// The lines of the dependencies of a node mark a violation only where an
/// edge that can be reached from the node breaks a rule.
pub proof fn lemma_marked_each_means_broken_below(
    g: GraphView,
    rules: Seq<RuleView>,
    all: bool,
    node: usize,
    kind: DependencyKind,
    levels: Seq<bool>,
    visited: Set<Seq<char>>,
    from: nat,
)
    requires
        all ==> g.acyclic(),
    ensures
        any_violation(each(g, rules, all, node, kind, levels, visited, from)) ==> broken_below(
            g,
            rules,
            node,
        ),
    decreases weight(g, all, node, visited), 1nat, dependencies(g, node, kind).len() - from,
{
    lemma_each_unfold(g, rules, all, node, kind, levels, visited, from);
    let deps = dependencies(g, node, kind);
    if from < deps.len() && g.has(node) {
        let child = deps[from as int];
        let below = levels.push(from + 1 < deps.len());
        let first = visit(g, rules, all, Some(node), child, below, visited);
        let rest = each(g, rules, all, node, kind, levels, visited_after(g, visited, first), from + 1);
        lemma_dependency_is_edge(g, node, kind, from as int);
        if all {
            lemma_dependency_ranks_lower(g, node, kind, from as int);
        } else {
            lemma_unvisited_monotone(g, visited, visited_after(g, visited, first));
        }
        lemma_marked_means_broken_below(g, rules, all, Some(node), child, below, visited);
        lemma_marked_each_means_broken_below(
            g,
            rules,
            all,
            node,
            kind,
            levels,
            visited_after(g, visited, first),
            from + 1,
        );
        lemma_any_violation_concat(first, rest);
        if any_violation(first) {
            lemma_broken_below_rises(g, rules, node, child);
        }
    } else {
        if any_violation(Seq::<LineView>::empty()) {
            let i = choose|i: int|
                0 <= i < 0 && marks_violation(#[trigger] Seq::<LineView>::empty()[i]);
        }
    }
}

/// Whether `line` shows the package at `node`.
pub open spec fn shows_node(line: LineView, node: usize) -> bool {
    match line {
        LineView::Package { node: shown, .. } => shown == node,
        LineView::Group { .. } => false,
    }
}

/// Whether `line` shows the package at `node` and its dependencies follow:
/// the package was not seen before, or every occurrence is expanded.
pub open spec fn expands_node(all: bool, line: LineView, node: usize) -> bool {
    match line {
        LineView::Package { node: shown, repeated, .. } => shown == node && (all || !repeated),
        LineView::Group { .. } => false,
    }
}

/// Whether some line shows the package at `node`.
pub open spec fn has_line(lines: Seq<LineView>, node: usize) -> bool {
    exists|i: int| 0 <= i < lines.len() && shows_node(#[trigger] lines[i], node)
}

/// Whether some line shows the package at `node` with its dependencies
/// following.
pub open spec fn expanded_in(all: bool, lines: Seq<LineView>, node: usize) -> bool {
    exists|i: int| 0 <= i < lines.len() && expands_node(all, #[trigger] lines[i], node)
}

/// Whether the lines account for every edge that leaves `node`: they show
/// its target, and they mark a violation if the edge breaks a rule.
pub open spec fn covers(g: GraphView, rules: Seq<RuleView>, lines: Seq<LineView>, node: usize) -> bool {
    forall|to: usize| #[trigger]
        g.has_edge(node, to) ==> has_line(lines, to) && (forbidden(g, rules, node, to)
            ==> any_violation(lines))
}

/// What holds of the lines of every walk that began with `visited` seen: they
/// show packages of the graph only; they account for every edge of every
/// package that they expand; and they expand every package that they show
/// and that had not been seen.
pub open spec fn tidy(
    g: GraphView,
    rules: Seq<RuleView>,
    all: bool,
    visited: Set<Seq<char>>,
    lines: Seq<LineView>,
) -> bool {
    &&& all_in_graph(g, lines)
    &&& forall|u: usize| #[trigger] expanded_in(all, lines, u) ==> covers(g, rules, lines, u)
    &&& forall|x: usize| #[trigger]
        has_line(lines, x) && !visited.contains(g.packages[x].id) ==> expanded_in(all, lines, x)
}

/// Two runs of lines show a package exactly when one of them does, and
/// expand it exactly when one of them does.
pub proof fn lemma_lines_concat(all: bool, a: Seq<LineView>, b: Seq<LineView>, node: usize)
    ensures
        has_line(a + b, node) == (has_line(a, node) || has_line(b, node)),
        expanded_in(all, a + b, node) == (expanded_in(all, a, node) || expanded_in(all, b, node)),
{
    if has_line(a + b, node) {
        let i = choose|i: int| 0 <= i < (a + b).len() && shows_node(#[trigger] (a + b)[i], node);
        if i < a.len() {
            assert(shows_node(a[i], node));
        } else {
            assert(shows_node(b[i - a.len()], node));
        }
    }
    if has_line(a, node) {
        let i = choose|i: int| 0 <= i < a.len() && shows_node(#[trigger] a[i], node);
        assert(shows_node((a + b)[i], node));
    }
    if has_line(b, node) {
        let i = choose|i: int| 0 <= i < b.len() && shows_node(#[trigger] b[i], node);
        assert(shows_node((a + b)[i + a.len()], node));
    }
    if expanded_in(all, a + b, node) {
        let i = choose|i: int|
            0 <= i < (a + b).len() && expands_node(all, #[trigger] (a + b)[i], node);
        if i < a.len() {
            assert(expands_node(all, a[i], node));
        } else {
            assert(expands_node(all, b[i - a.len()], node));
        }
    }
    if expanded_in(all, a, node) {
        let i = choose|i: int| 0 <= i < a.len() && expands_node(all, #[trigger] a[i], node);
        assert(expands_node(all, (a + b)[i], node));
    }
    if expanded_in(all, b, node) {
        let i = choose|i: int| 0 <= i < b.len() && expands_node(all, #[trigger] b[i], node);
        assert(expands_node(all, (a + b)[i + a.len()], node));
    }
}

/// What one of two runs of lines accounts for, the two together account for.
pub proof fn lemma_covers_concat(
    g: GraphView,
    rules: Seq<RuleView>,
    a: Seq<LineView>,
    b: Seq<LineView>,
    node: usize,
)
    requires
        covers(g, rules, a, node) || covers(g, rules, b, node),
    ensures
        covers(g, rules, a + b, node),
{
    lemma_any_violation_concat(a, b);
    assert forall|to: usize| #[trigger] g.has_edge(node, to) implies has_line(a + b, to) && (
    forbidden(g, rules, node, to) ==> any_violation(a + b)) by {
        lemma_lines_concat(true, a, b, to);
    }
}

/// Two tidy runs of lines, the second begun with what the first had shown,
/// are tidy together.
pub proof fn lemma_tidy_concat(
    g: GraphView,
    rules: Seq<RuleView>,
    all: bool,
    visited: Set<Seq<char>>,
    a: Seq<LineView>,
    b: Seq<LineView>,
)
    requires
        tidy(g, rules, all, visited, a),
        tidy(g, rules, all, visited_after(g, visited, a), b),
        all || distinct_ids(g),
    ensures
        tidy(g, rules, all, visited, a + b),
{
    let both = a + b;
    assert forall|i: int| 0 <= i < both.len() implies in_graph(g, #[trigger] both[i]) by {
        if i < a.len() {
            assert(both[i] == a[i]);
        } else {
            assert(both[i] == b[i - a.len()]);
        }
    }
    assert forall|u: usize| #[trigger] expanded_in(all, both, u) implies covers(
        g,
        rules,
        both,
        u,
    ) by {
        lemma_lines_concat(all, a, b, u);
        lemma_covers_concat(g, rules, a, b, u);
    }
    assert forall|x: usize| #[trigger]
        has_line(both, x) && !visited.contains(g.packages[x].id) implies expanded_in(
        all,
        both,
        x,
    ) by {
        lemma_lines_concat(all, a, b, x);
        if has_line(a, x) {
        } else {
            let j = choose|j: int| 0 <= j < b.len() && shows_node(#[trigger] b[j], x);
            assert(in_graph(g, b[j]));
            if all {
                assert(expands_node(all, b[j], x));
            } else if visited_after(g, visited, a).contains(g.packages[x].id) {
                let i = choose|i: int|
                    0 <= i < a.len() && shows(g, #[trigger] a[i], g.packages[x].id);
                assert(in_graph(g, a[i]));
                assert(shows_node(a[i], x));
            }
        }
    }
}

/// Each dependency of a node has a line in the run of dependencies that it
/// stands in, and the run marks a violation if the edge to the dependency
/// breaks a rule.
pub proof fn lemma_dependency_has_line(
    g: GraphView,
    rules: Seq<RuleView>,
    all: bool,
    node: usize,
    kind: DependencyKind,
    levels: Seq<bool>,
    visited: Set<Seq<char>>,
    from: nat,
    at: nat,
)
    requires
        all ==> g.acyclic(),
        g.has(node),
        from <= at < dependencies(g, node, kind).len(),
    ensures
        has_line(
            each(g, rules, all, node, kind, levels, visited, from),
            dependencies(g, node, kind)[at as int],
        ),
        forbidden(g, rules, node, dependencies(g, node, kind)[at as int]) ==> any_violation(
            each(g, rules, all, node, kind, levels, visited, from),
        ),
    decreases at - from,
{
    let deps = dependencies(g, node, kind);
    let below = levels.push(from + 1 < deps.len());
    let first = visit(g, rules, all, Some(node), deps[from as int], below, visited);
    let seen = visited_after(g, visited, first);
    let rest = each(g, rules, all, node, kind, levels, seen, from + 1);
    lemma_each_unfold(g, rules, all, node, kind, levels, visited, from);
    lemma_any_violation_concat(first, rest);
    lemma_lines_concat(all, first, rest, deps[at as int]);
    if from == at {
        lemma_visit_begins_with_node(g, rules, all, Some(node), deps[from as int], below, visited);
        assert(shows_node(first[0], deps[at as int]));
        if forbidden(g, rules, node, deps[at as int]) {
            assert(marks_violation(first[0]));
        }
    } else {
        lemma_dependency_has_line(g, rules, all, node, kind, levels, seen, from + 1, at);
    }
}

/// The lines that showing a node adds are tidy.
pub proof fn lemma_visit_is_tidy(
    g: GraphView,
    rules: Seq<RuleView>,
    all: bool,
    parent: Option<usize>,
    node: usize,
    levels: Seq<bool>,
    visited: Set<Seq<char>>,
)
    requires
        all ==> g.acyclic(),
        closed(g),
        all || distinct_ids(g),
        g.has(node),
    ensures
        tidy(g, rules, all, visited, visit(g, rules, all, parent, node, levels, visited)),
    decreases weight(g, all, node, visited), (if all { 3nat } else { 0nat }), 0nat,
{
    let id = g.packages[node].id;
    let whole = visit(g, rules, all, parent, node, levels, visited);
    let line = LineView::Package {
        levels,
        node,
        violation: edge_violation(g, rules, parent, node),
        repeated: visited.contains(id),
    };
    let one = seq![line];
    assert(one[0] == line);
    if !all && visited.contains(id) {
        lemma_visit_stops(g, rules, all, parent, node, levels, visited);
        assert forall|u: usize| #[trigger] expanded_in(all, one, u) implies covers(
            g,
            rules,
            one,
            u,
        ) by {
            let i = choose|i: int| 0 <= i < one.len() && expands_node(all, #[trigger] one[i], u);
        }
        assert forall|x: usize| #[trigger]
            has_line(one, x) && !visited.contains(g.packages[x].id) implies expanded_in(
            all,
            one,
            x,
        ) by {
            let i = choose|i: int| 0 <= i < one.len() && shows_node(#[trigger] one[i], x);
        }
    } else {
        lemma_visit_expanded(g, rules, all, parent, node, levels, visited);
        let inside = visited.insert(id);
        let normal = group(g, rules, all, node, DependencyKind::Normal, levels, inside);
        let seen_normal = visited_after(g, inside, normal);
        let build = group(g, rules, all, node, DependencyKind::Build, levels, seen_normal);
        let seen_build = visited_after(g, seen_normal, build);
        let development = group(
            g,
            rules,
            all,
            node,
            DependencyKind::Development,
            levels,
            seen_build,
        );
        if !all {
            lemma_unvisited_shrinks(g, visited, inside, node);
            lemma_unvisited_shrinks(g, visited, seen_normal, node);
            lemma_unvisited_shrinks(g, visited, seen_build, node);
        }
        lemma_group_is_tidy(g, rules, all, node, DependencyKind::Normal, levels, inside);
        lemma_group_is_tidy(g, rules, all, node, DependencyKind::Build, levels, seen_normal);
        lemma_group_is_tidy(g, rules, all, node, DependencyKind::Development, levels, seen_build);
        lemma_tidy_concat(g, rules, all, inside, normal, build);
        lemma_visited_after_concat(g, inside, normal, build);
        lemma_tidy_concat(g, rules, all, inside, normal + build, development);
        let below = normal + build + development;
        assert(whole =~= one + below);
        lemma_any_violation_concat(one, below);
        assert forall|i: int| 0 <= i < whole.len() implies in_graph(g, #[trigger] whole[i]) by {
            if i > 0 {
                assert(whole[i] == below[i - 1]);
            }
        }
        assert(covers(g, rules, whole, node)) by {
            assert forall|to: usize| #[trigger] g.has_edge(node, to) implies has_line(whole, to)
                && (forbidden(g, rules, node, to) ==> any_violation(whole)) by {
                lemma_edge_is_dependency(g, node, to);
                let (kind, at) = choose|kind: DependencyKind, at: int|
                    0 <= at < dependencies(g, node, kind).len() && #[trigger] dependencies(
                        g,
                        node,
                        kind,
                    )[at] == to;
                let seen = match kind {
                    DependencyKind::Normal => inside,
                    DependencyKind::Build => seen_normal,
                    DependencyKind::Development => seen_build,
                };
                let part = group(g, rules, all, node, kind, levels, seen);
                lemma_group_shows_dependency(g, rules, all, node, kind, levels, seen, at as nat);
                lemma_lines_concat(all, normal, build, to);
                lemma_lines_concat(all, normal + build, development, to);
                lemma_lines_concat(all, one, below, to);
                lemma_any_violation_concat(normal, build);
                lemma_any_violation_concat(normal + build, development);
            }
        }
        assert forall|u: usize| #[trigger] expanded_in(all, whole, u) implies covers(
            g,
            rules,
            whole,
            u,
        ) by {
            lemma_lines_concat(all, one, below, u);
            if expanded_in(all, below, u) {
                lemma_covers_concat(g, rules, one, below, u);
            } else {
                let i = choose|i: int| 0 <= i < one.len() && expands_node(all, #[trigger] one[i], u);
            }
        }
        assert forall|x: usize| #[trigger]
            has_line(whole, x) && !visited.contains(g.packages[x].id) implies expanded_in(
            all,
            whole,
            x,
        ) by {
            lemma_lines_concat(all, one, below, x);
            assert(expands_node(all, one[0], node));
            if has_line(one, x) {
                let i = choose|i: int| 0 <= i < one.len() && shows_node(#[trigger] one[i], x);
            } else {
                let j = choose|j: int| 0 <= j < below.len() && shows_node(#[trigger] below[j], x);
                assert(in_graph(g, below[j]));
                if all {
                    assert(expands_node(all, below[j], x));
                } else if !inside.contains(g.packages[x].id) {
                } else {
                    assert(x == node);
                }
            }
        }
    }
}

/// A group shows each dependency of its kind, and marks a violation if the
/// edge to one of them breaks a rule.
pub proof fn lemma_group_shows_dependency(
    g: GraphView,
    rules: Seq<RuleView>,
    all: bool,
    node: usize,
    kind: DependencyKind,
    levels: Seq<bool>,
    visited: Set<Seq<char>>,
    at: nat,
)
    requires
        all ==> g.acyclic(),
        g.has(node),
        at < dependencies(g, node, kind).len(),
    ensures
        has_line(
            group(g, rules, all, node, kind, levels, visited),
            dependencies(g, node, kind)[at as int],
        ),
        forbidden(g, rules, node, dependencies(g, node, kind)[at as int]) ==> any_violation(
            group(g, rules, all, node, kind, levels, visited),
        ),
{
    lemma_group_unfold(g, rules, all, node, kind, levels, visited);
    let heading: Seq<LineView> = if dependencies(g, node, kind).len() > 0 && kind
        != DependencyKind::Normal {
        seq![LineView::Group { levels, kind }]
    } else {
        Seq::empty()
    };
    let rows = each(g, rules, all, node, kind, levels, visited, 0);
    lemma_dependency_has_line(g, rules, all, node, kind, levels, visited, 0, at);
    lemma_lines_concat(all, heading, rows, dependencies(g, node, kind)[at as int]);
    lemma_any_violation_concat(heading, rows);
}

/// The lines of a group are tidy.
pub proof fn lemma_group_is_tidy(
    g: GraphView,
    rules: Seq<RuleView>,
    all: bool,
    node: usize,
    kind: DependencyKind,
    levels: Seq<bool>,
    visited: Set<Seq<char>>,
)
    requires
        all ==> g.acyclic(),
        closed(g),
        all || distinct_ids(g),
        g.has(node),
    ensures
        tidy(g, rules, all, visited, group(g, rules, all, node, kind, levels, visited)),
    decreases weight(g, all, node, visited), 2nat, 0nat,
{
    lemma_group_unfold(g, rules, all, node, kind, levels, visited);
    let heading: Seq<LineView> = if dependencies(g, node, kind).len() > 0 && kind
        != DependencyKind::Normal {
        seq![LineView::Group { levels, kind }]
    } else {
        Seq::empty()
    };
    let rows = each(g, rules, all, node, kind, levels, visited, 0);
    lemma_each_is_tidy(g, rules, all, node, kind, levels, visited, 0);
    assert(tidy(g, rules, all, visited, heading)) by {
        assert forall|u: usize| #[trigger] expanded_in(all, heading, u) implies covers(
            g,
            rules,
            heading,
            u,
        ) by {
            let i = choose|i: int|
                0 <= i < heading.len() && expands_node(all, #[trigger] heading[i], u);
        }
        assert forall|x: usize| #[trigger]
            has_line(heading, x) && !visited.contains(g.packages[x].id) implies expanded_in(
            all,
            heading,
            x,
        ) by {
            let i = choose|i: int| 0 <= i < heading.len() && shows_node(#[trigger] heading[i], x);
        }
    }
    assert(visited_after(g, visited, heading) =~= visited) by {
        assert forall|id: Seq<char>| !shown(g, heading).contains(id) by {
            if shown(g, heading).contains(id) {
                let i = choose|i: int| 0 <= i < heading.len() && shows(g, #[trigger] heading[i], id);
            }
        }
    }
    lemma_tidy_concat(g, rules, all, visited, heading, rows);
}

/// The lines of the dependencies of a node are tidy.
pub proof fn lemma_each_is_tidy(
    g: GraphView,
    rules: Seq<RuleView>,
    all: bool,
    node: usize,
    kind: DependencyKind,
    levels: Seq<bool>,
    visited: Set<Seq<char>>,
    from: nat,
)
    requires
        all ==> g.acyclic(),
        closed(g),
        all || distinct_ids(g),
        g.has(node),
    ensures
        tidy(g, rules, all, visited, each(g, rules, all, node, kind, levels, visited, from)),
    decreases weight(g, all, node, visited), 1nat, dependencies(g, node, kind).len() - from,
{
    lemma_each_unfold(g, rules, all, node, kind, levels, visited, from);
    let deps = dependencies(g, node, kind);
    if from < deps.len() {
        let child = deps[from as int];
        let below = levels.push(from + 1 < deps.len());
        let first = visit(g, rules, all, Some(node), child, below, visited);
        let seen = visited_after(g, visited, first);
        lemma_dependency_is_edge(g, node, kind, from as int);
        if all {
            lemma_dependency_ranks_lower(g, node, kind, from as int);
        } else {
            lemma_unvisited_monotone(g, visited, seen);
        }
        lemma_visit_is_tidy(g, rules, all, Some(node), child, below, visited);
        lemma_each_is_tidy(g, rules, all, node, kind, levels, seen, from + 1);
        lemma_tidy_concat(
            g,
            rules,
            all,
            visited,
            first,
            each(g, rules, all, node, kind, levels, seen, from + 1),
        );
    } else {
        let none = Seq::<LineView>::empty();
        assert forall|u: usize| #[trigger] expanded_in(all, none, u) implies covers(
            g,
            rules,
            none,
            u,
        ) by {
            let i = choose|i: int| 0 <= i < none.len() && expands_node(all, #[trigger] none[i], u);
        }
        assert forall|x: usize| #[trigger]
            has_line(none, x) && !visited.contains(g.packages[x].id) implies expanded_in(
            all,
            none,
            x,
        ) by {
            let i = choose|i: int| 0 <= i < none.len() && shows_node(#[trigger] none[i], x);
        }
    }
}

/// Tidy lines of a walk that began with nothing seen expand every node on a
/// path from a node that they expand.
pub proof fn lemma_path_is_expanded(
    g: GraphView,
    rules: Seq<RuleView>,
    all: bool,
    lines: Seq<LineView>,
    path: Seq<usize>,
    at: int,
)
    requires
        tidy(g, rules, all, Set::empty(), lines),
        is_path(g, path),
        expanded_in(all, lines, path[0]),
        0 <= at < path.len(),
    ensures
        expanded_in(all, lines, path[at]),
    decreases at,
{
    if at > 0 {
        lemma_path_is_expanded(g, rules, all, lines, path, at - 1);
        assert(covers(g, rules, lines, path[at - 1]));
        assert(g.has_edge(path[at - 1], path[at]));
        assert(has_line(lines, path[at]));
    }
}

/// What the tree below a node finds, drawn with nothing seen before: its
/// lines mark a violation exactly when the edge that leads to the node
/// breaks a rule, or some edge that can be reached from the node does, at
/// whatever depth and whatever stands beside it.
///
/// The graph is one whose edges lead to its own nodes; and, unless every
/// occurrence is expanded, one in which no two nodes hold the same
/// identifier.
pub proof fn lemma_violation_iff_broken_below(
    g: GraphView,
    rules: Seq<RuleView>,
    all: bool,
    parent: Option<usize>,
    node: usize,
    levels: Seq<bool>,
)
    requires
        all ==> g.acyclic(),
        closed(g),
        all || distinct_ids(g),
        g.has(node),
    ensures
        any_violation(visit(g, rules, all, parent, node, levels, Set::empty())) == (
        edge_violation(g, rules, parent, node) || broken_below(g, rules, node)),
{
    let nothing = Set::<Seq<char>>::empty();
    let lines = visit(g, rules, all, parent, node, levels, nothing);
    lemma_marked_means_broken_below(g, rules, all, parent, node, levels, nothing);
    lemma_visit_begins_with_node(g, rules, all, parent, node, levels, nothing);
    if edge_violation(g, rules, parent, node) {
        assert(marks_violation(lines[0]));
    }
    if broken_below(g, rules, node) {
        let (u, v) = choose|u: usize, v: usize|
            #![trigger reaches(g, node, u), g.has_edge(u, v)]
            reaches(g, node, u) && g.has_edge(u, v) && forbidden(g, rules, u, v);
        let path = choose|path: Seq<usize>|
            #[trigger] is_path(g, path) && path[0] == node && path.last() == u;
        lemma_visit_is_tidy(g, rules, all, parent, node, levels, nothing);
        assert(shows_node(lines[0], node));
        assert(has_line(lines, node));
        lemma_path_is_expanded(g, rules, all, lines, path, path.len() - 1);
        assert(covers(g, rules, lines, u));
    }
}

/// Without rules no tree marks a violation, whatever the graph.
pub proof fn lemma_no_rules_no_violation(
    g: GraphView,
    rules: Seq<RuleView>,
    all: bool,
    parent: Option<usize>,
    node: usize,
    levels: Seq<bool>,
    visited: Set<Seq<char>>,
)
    requires
        all ==> g.acyclic(),
        rules.len() == 0,
    ensures
        !any_violation(visit(g, rules, all, parent, node, levels, visited)),
{
    lemma_marked_means_broken_below(g, rules, all, parent, node, levels, visited);
    if broken_below(g, rules, node) {
        let (u, v) = choose|u: usize, v: usize|
            #![trigger reaches(g, node, u), g.has_edge(u, v)]
            reaches(g, node, u) && g.has_edge(u, v) && forbidden(g, rules, u, v);
    }
}

} // verus!
