//! The lines of the dependency tree, as a mathematical function of the graph
//! and the rules.

use vstd::prelude::*;
use vstd::set_lib::{lemma_len_subset, FiniteFull};
use crate::dependency_graph::order::{dependencies, lemma_dependency_is_edge};
use crate::dependency_graph::GraphView;
use crate::dependency_rule::{rules_forbid, RuleView};
use crate::package::DependencyKind;

verus! {

/// One line of the tree.
#[derive(Debug)]
pub enum Line {
    /// A package. `levels` holds one flag for each ancestor of the line, the
    /// root left out and the line itself counted in: whether more lines
    /// follow at that depth under the same parent. `violation` says that the
    /// edge from the parent to this package breaks a rule, `repeated` that
    /// the package was shown before.
    Package { levels: Vec<bool>, node: usize, violation: bool, repeated: bool },
    /// The heading of a group of build or development dependencies, under the
    /// package whose line has these `levels`.
    Group { levels: Vec<bool>, kind: DependencyKind },
}

/// What a [`Line`] holds, as mathematical values.
pub ghost enum LineView {
    Package { levels: Seq<bool>, node: usize, violation: bool, repeated: bool },
    Group { levels: Seq<bool>, kind: DependencyKind },
}

impl View for Line {
    type V = LineView;

    open spec fn view(&self) -> LineView {
        match *self {
            Line::Package { levels, node, violation, repeated } => LineView::Package {
                levels: levels@,
                node,
                violation,
                repeated,
            },
            Line::Group { levels, kind } => LineView::Group { levels: levels@, kind },
        }
    }
}

/// The lines of a list, each as its view.
pub open spec fn views(lines: Seq<Line>) -> Seq<LineView> {
    lines.map_values(|l: Line| l@)
}

/// Whether `line` shows a package of the graph, or is a heading.
pub open spec fn in_graph(g: GraphView, line: LineView) -> bool {
    match line {
        LineView::Package { node, .. } => g.has(node),
        LineView::Group { .. } => true,
    }
}

/// Whether every package that `lines` show is a package of the graph.
pub open spec fn all_in_graph(g: GraphView, lines: Seq<LineView>) -> bool {
    forall|i: int| 0 <= i < lines.len() ==> in_graph(g, #[trigger] lines[i])
}

/// Whether the edge from `parent` to `node` breaks a rule: the owner of some
/// rule is the identifier of the parent, and the rule forbids the identifier
/// of the node. A node without a parent breaks none.
pub open spec fn edge_violation(
    g: GraphView,
    rules: Seq<RuleView>,
    parent: Option<usize>,
    node: usize,
) -> bool {
    match parent {
        Some(p) => rules_forbid(rules, g.packages[p].id, g.packages[node].id),
        None => false,
    }
}

/// Whether `line` shows a package whose identifier is `id`.
pub open spec fn shows(g: GraphView, line: LineView, id: Seq<char>) -> bool {
    match line {
        LineView::Package { node, .. } => g.packages[node].id == id,
        LineView::Group { .. } => false,
    }
}

/// The identifiers of the packages that `lines` show.
pub open spec fn shown(g: GraphView, lines: Seq<LineView>) -> Set<Seq<char>> {
    Set::new(|id: Seq<char>| exists|i: int| 0 <= i < lines.len() && shows(g, #[trigger] lines[i], id))
}

/// The identifiers that have been seen once `lines` have been added to a tree
/// in which `visited` had been seen.
pub open spec fn visited_after(g: GraphView, visited: Set<Seq<char>>, lines: Seq<LineView>) -> Set<
    Seq<char>,
> {
    visited.union(shown(g, lines))
}

/// Whether `line` shows a package on an edge that breaks a rule.
pub open spec fn marks_violation(line: LineView) -> bool {
    match line {
        LineView::Package { violation, .. } => violation,
        LineView::Group { .. } => false,
    }
}

/// Whether some line of `lines` shows a package on an edge that breaks a
/// rule.
pub open spec fn any_violation(lines: Seq<LineView>) -> bool {
    exists|i: int| 0 <= i < lines.len() && marks_violation(#[trigger] lines[i])
}

/// The nodes of the graph whose identifier has not been seen.
pub open spec fn unvisited(g: GraphView, visited: Set<Seq<char>>) -> Set<usize> {
    Set::new(|n: usize| g.has(n) && !visited.contains(g.packages[n].id))
}

/// What bounds the work below `node`: where every occurrence is expanded, the
/// rank of the node in the acyclic graph; else the number of nodes not yet
/// seen.
pub open spec fn weight(g: GraphView, all: bool, node: usize, visited: Set<Seq<char>>) -> nat {
    if all {
        g.ranking()[node]
    } else {
        unvisited(g, visited).len()
    }
}

/// Seeing more leaves no more nodes unseen.
pub proof fn lemma_unvisited_monotone(g: GraphView, before: Set<Seq<char>>, after: Set<Seq<char>>)
    requires
        before.subset_of(after),
    ensures
        unvisited(g, after).len() <= unvisited(g, before).len(),
        unvisited(g, before).finite(),
{
    <usize as FiniteFull>::full_properties();
    lemma_len_subset(unvisited(g, before), Set::<usize>::full());
    lemma_len_subset(unvisited(g, after), unvisited(g, before));
}

/// Seeing a node of the graph for the first time leaves fewer nodes unseen.
pub proof fn lemma_unvisited_shrinks(
    g: GraphView,
    before: Set<Seq<char>>,
    after: Set<Seq<char>>,
    node: usize,
)
    requires
        g.has(node),
        !before.contains(g.packages[node].id),
        before.insert(g.packages[node].id).subset_of(after),
    ensures
        unvisited(g, after).len() < unvisited(g, before).len(),
{
    <usize as FiniteFull>::full_properties();
    lemma_len_subset(unvisited(g, before), Set::<usize>::full());
    let smaller = unvisited(g, before).remove(node);
    assert(unvisited(g, before).contains(node));
    assert(unvisited(g, after).subset_of(smaller));
    lemma_len_subset(unvisited(g, after), smaller);
}

/// In an acyclic graph each dependency of a node has a smaller rank than the
/// node.
pub proof fn lemma_dependency_ranks_lower(g: GraphView, node: usize, kind: DependencyKind, i: int)
    requires
        g.acyclic(),
        g.has(node),
        0 <= i < dependencies(g, node, kind).len(),
    ensures
        g.ranking()[dependencies(g, node, kind)[i]] < g.ranking()[node],
{
    lemma_dependency_is_edge(g, node, kind, i);
}

/// The lines that showing `node` adds to the tree: the line of the node
/// itself and, unless it stops there, the lines of everything below it.
///
/// `parent` is the node under which `node` is shown, `levels` are the flags
/// of its line, and `visited` holds the identifiers seen so far. The node is
/// marked as repeated if its identifier has been seen. It is expanded if it
/// has not been seen or if `all` asks for every occurrence to be expanded;
/// then its normal, build and development dependencies follow, in that order,
/// each group seeing what the lines before it have shown.
#[verifier::opaque]
pub open spec fn visit(
    g: GraphView,
    rules: Seq<RuleView>,
    all: bool,
    parent: Option<usize>,
    node: usize,
    levels: Seq<bool>,
    visited: Set<Seq<char>>,
) -> Seq<LineView>
    decreases weight(g, all, node, visited), (if all { 3nat } else { 0nat }), 0nat,
    when all ==> g.acyclic()
{
    let id = g.packages[node].id;
    let seen = visited.contains(id);
    let line = LineView::Package {
        levels,
        node,
        violation: edge_violation(g, rules, parent, node),
        repeated: seen,
    };
    if !g.has(node) || (seen && !all) {
        seq![line]
    } else {
        let inside = visited.insert(id);
        proof {
            if !all {
                lemma_unvisited_shrinks(g, visited, inside, node);
            }
        }
        let normal = group(g, rules, all, node, DependencyKind::Normal, levels, inside);
        proof {
            if !all {
                lemma_unvisited_shrinks(g, visited, visited_after(g, inside, normal), node);
            }
        }
        let build = group(
            g,
            rules,
            all,
            node,
            DependencyKind::Build,
            levels,
            visited_after(g, inside, normal),
        );
        proof {
            if !all {
                lemma_unvisited_shrinks(g, visited, visited_after(g, inside, normal + build), node);
            }
        }
        let development = group(
            g,
            rules,
            all,
            node,
            DependencyKind::Development,
            levels,
            visited_after(g, inside, normal + build),
        );
        seq![line] + normal + build + development
    }
}

/// The lines of one group of dependencies of `node`: a heading, where the
/// group is not empty and not the group of normal dependencies, and then the
/// dependencies of that kind in ascending order of their identifiers.
#[verifier::opaque]
pub open spec fn group(
    g: GraphView,
    rules: Seq<RuleView>,
    all: bool,
    node: usize,
    kind: DependencyKind,
    levels: Seq<bool>,
    visited: Set<Seq<char>>,
) -> Seq<LineView>
    decreases weight(g, all, node, visited), 2nat, 0nat,
    when all ==> g.acyclic()
{
    let heading = if dependencies(g, node, kind).len() > 0 && kind != DependencyKind::Normal {
        seq![LineView::Group { levels, kind }]
    } else {
        Seq::empty()
    };
    heading + each(g, rules, all, node, kind, levels, visited, 0)
}

/// The lines of the dependencies of `node` of one kind from the `from`-th
/// on. Each is shown one level below `node`, flagged with whether another
/// follows it, and sees what the lines before it have shown.
#[verifier::opaque]
pub open spec fn each(
    g: GraphView,
    rules: Seq<RuleView>,
    all: bool,
    node: usize,
    kind: DependencyKind,
    levels: Seq<bool>,
    visited: Set<Seq<char>>,
    from: nat,
) -> Seq<LineView>
    decreases weight(g, all, node, visited), 1nat, dependencies(g, node, kind).len() - from,
    when all ==> g.acyclic()
{
    let deps = dependencies(g, node, kind);
    if from >= deps.len() || !g.has(node) {
        Seq::empty()
    } else {
        proof {
            if all {
                lemma_dependency_ranks_lower(g, node, kind, from as int);
            }
        }
        let first = visit(
            g,
            rules,
            all,
            Some(node),
            deps[from as int],
            levels.push(from + 1 < deps.len()),
            visited,
        );
        proof {
            if !all {
                lemma_unvisited_monotone(g, visited, visited_after(g, visited, first));
            }
        }
        first + each(g, rules, all, node, kind, levels, visited_after(g, visited, first), from + 1)
    }
}

/// The lines of two lists, one after the other, show what either shows.
pub proof fn lemma_shown_concat(g: GraphView, a: Seq<LineView>, b: Seq<LineView>)
    ensures
        shown(g, a + b) == shown(g, a).union(shown(g, b)),
{
    assert forall|id: Seq<char>| shown(g, a + b).contains(id) <==> (shown(g, a).contains(id)
        || shown(g, b).contains(id)) by {
        if shown(g, a + b).contains(id) {
            let i = choose|i: int| 0 <= i < (a + b).len() && shows(g, #[trigger] (a + b)[i], id);
            if i < a.len() {
                assert(shows(g, a[i], id));
            } else {
                assert(shows(g, b[i - a.len()], id));
            }
        }
        if shown(g, a).contains(id) {
            let i = choose|i: int| 0 <= i < a.len() && shows(g, #[trigger] a[i], id);
            assert(shows(g, (a + b)[i], id));
        }
        if shown(g, b).contains(id) {
            let i = choose|i: int| 0 <= i < b.len() && shows(g, #[trigger] b[i], id);
            assert(shows(g, (a + b)[i + a.len()], id));
        }
    }
    assert(shown(g, a + b) =~= shown(g, a).union(shown(g, b)));
}

/// Seeing two lists of lines in turn is seeing the two as one list.
pub proof fn lemma_visited_after_concat(
    g: GraphView,
    visited: Set<Seq<char>>,
    a: Seq<LineView>,
    b: Seq<LineView>,
)
    ensures
        visited_after(g, visited_after(g, visited, a), b) == visited_after(g, visited, a + b),
{
    lemma_shown_concat(g, a, b);
    assert(visited_after(g, visited_after(g, visited, a), b) =~= visited_after(g, visited, a + b));
}

/// A list of lines marks a violation exactly when one of its two parts does.
pub proof fn lemma_any_violation_concat(a: Seq<LineView>, b: Seq<LineView>)
    ensures
        any_violation(a + b) == (any_violation(a) || any_violation(b)),
{
    if any_violation(a + b) {
        let i = choose|i: int| 0 <= i < (a + b).len() && marks_violation(#[trigger] (a + b)[i]);
        if i < a.len() {
            assert(marks_violation(a[i]));
        } else {
            assert(marks_violation(b[i - a.len()]));
        }
    }
    if any_violation(a) {
        let i = choose|i: int| 0 <= i < a.len() && marks_violation(#[trigger] a[i]);
        assert(marks_violation((a + b)[i]));
    }
    if any_violation(b) {
        let i = choose|i: int| 0 <= i < b.len() && marks_violation(#[trigger] b[i]);
        assert(marks_violation((a + b)[i + a.len()]));
    }
}

/// One line shows its own package and marks its own violation, nothing else.
pub proof fn lemma_single_line(g: GraphView, line: LineView)
    ensures
        any_violation(seq![line]) == marks_violation(line),
        line is Group ==> shown(g, seq![line]) == Set::<Seq<char>>::empty(),
        line matches LineView::Package { node, .. } ==> shown(g, seq![line]) == Set::<
            Seq<char>,
        >::empty().insert(g.packages[node].id),
{
    let one = seq![line];
    assert(one[0] == line);
    match line {
        LineView::Package { node, .. } => {
            assert(shows(g, one[0], g.packages[node].id));
            assert(shown(g, one) =~= Set::<Seq<char>>::empty().insert(g.packages[node].id));
        },
        LineView::Group { .. } => {
            assert(shown(g, one) =~= Set::<Seq<char>>::empty());
        },
    }
}

/// A node that is not expanded adds its own line and nothing else.
pub proof fn lemma_visit_stops(
    g: GraphView,
    rules: Seq<RuleView>,
    all: bool,
    parent: Option<usize>,
    node: usize,
    levels: Seq<bool>,
    visited: Set<Seq<char>>,
)
    requires
        all ==> g.acyclic(),
        !g.has(node) || (!all && visited.contains(g.packages[node].id)),
    ensures
        visit(g, rules, all, parent, node, levels, visited) == seq![
            LineView::Package {
                levels,
                node,
                violation: edge_violation(g, rules, parent, node),
                repeated: visited.contains(g.packages[node].id),
            },
        ],
{
    reveal(visit);
}

/// A group is its heading, where it has one, and then its dependencies.
pub proof fn lemma_group_unfold(
    g: GraphView,
    rules: Seq<RuleView>,
    all: bool,
    node: usize,
    kind: DependencyKind,
    levels: Seq<bool>,
    visited: Set<Seq<char>>,
)
    requires
        all ==> g.acyclic(),
    ensures
        group(g, rules, all, node, kind, levels, visited) == (if dependencies(g, node, kind).len()
            > 0 && kind != DependencyKind::Normal {
            seq![LineView::Group { levels, kind }]
        } else {
            Seq::empty()
        }) + each(g, rules, all, node, kind, levels, visited, 0),
{
    reveal(group);
    reveal(each);
}

/// The dependencies from the `from`-th on are the `from`-th with everything
/// below it, and then the rest, which sees what the `from`-th has shown.
pub proof fn lemma_each_unfold(
    g: GraphView,
    rules: Seq<RuleView>,
    all: bool,
    node: usize,
    kind: DependencyKind,
    levels: Seq<bool>,
    visited: Set<Seq<char>>,
    from: nat,
)
    requires
        all ==> g.acyclic(),
    ensures
        each(g, rules, all, node, kind, levels, visited, from) == (if from >= dependencies(
            g,
            node,
            kind,
        ).len() || !g.has(node) {
            Seq::empty()
        } else {
            let first = visit(
                g,
                rules,
                all,
                Some(node),
                dependencies(g, node, kind)[from as int],
                levels.push(from + 1 < dependencies(g, node, kind).len()),
                visited,
            );
            first + each(
                g,
                rules,
                all,
                node,
                kind,
                levels,
                visited_after(g, visited, first),
                from + 1,
            )
        }),
{
    reveal(each);
    reveal(visit);
}

/// What an expanded node adds: its own line and its three groups, each
/// seeing what came before it.
pub proof fn lemma_visit_expanded(
    g: GraphView,
    rules: Seq<RuleView>,
    all: bool,
    parent: Option<usize>,
    node: usize,
    levels: Seq<bool>,
    visited: Set<Seq<char>>,
)
    requires
        all ==> g.acyclic(),
        g.has(node),
        all || !visited.contains(g.packages[node].id),
    ensures
        ({
            let line = LineView::Package {
                levels,
                node,
                violation: edge_violation(g, rules, parent, node),
                repeated: visited.contains(g.packages[node].id),
            };
            let inside = visited.insert(g.packages[node].id);
            let normal = group(g, rules, all, node, DependencyKind::Normal, levels, inside);
            let seen_normal = visited_after(g, inside, normal);
            let build = group(g, rules, all, node, DependencyKind::Build, levels, seen_normal);
            let seen_build = visited_after(g, seen_normal, build);
            let development = group(
                g,
                rules,
                all,
                node,
                DependencyKind::Development,
                levels,
                seen_build,
            );
            let whole = visit(g, rules, all, parent, node, levels, visited);
            &&& whole == seq![line] + normal + build + development
            &&& visited_after(g, visited, whole) == visited_after(g, seen_build, development)
            &&& any_violation(whole) == (edge_violation(g, rules, parent, node) || any_violation(
                normal,
            ) || any_violation(build) || any_violation(development))
        }),
{
    let line = LineView::Package {
        levels,
        node,
        violation: edge_violation(g, rules, parent, node),
        repeated: visited.contains(g.packages[node].id),
    };
    let inside = visited.insert(g.packages[node].id);
    let normal = group(g, rules, all, node, DependencyKind::Normal, levels, inside);
    let seen_normal = visited_after(g, inside, normal);
    let build = group(g, rules, all, node, DependencyKind::Build, levels, seen_normal);
    let seen_build = visited_after(g, seen_normal, build);
    lemma_visited_after_concat(g, inside, normal, build);
    let development = group(g, rules, all, node, DependencyKind::Development, levels, seen_build);
    let below = normal + build + development;
    let whole = visit(g, rules, all, parent, node, levels, visited);
    reveal(visit);
    reveal(group);
    assert(whole =~= seq![line] + below);
    lemma_single_line(g, line);
    assert(visited_after(g, visited, seq![line]) =~= inside);
    lemma_visited_after_concat(g, inside, normal + build, development);
    lemma_visited_after_concat(g, visited, seq![line], below);
    lemma_any_violation_concat(normal, build);
    lemma_any_violation_concat(normal + build, development);
    lemma_any_violation_concat(seq![line], below);
}

/// A violation is never lost on the way up: what a dependency and everything
/// below it marks, the run of dependencies that it stands in marks too; what
/// the dependencies of a group mark, the group marks; and what a group marks,
/// the node marks whose group it is, as it marks a violation of the edge that
/// leads to the node itself.
pub proof fn lemma_violations_are_sticky(
    g: GraphView,
    rules: Seq<RuleView>,
    all: bool,
    parent: Option<usize>,
    node: usize,
    kind: DependencyKind,
    levels: Seq<bool>,
    visited: Set<Seq<char>>,
    from: nat,
)
    requires
        all ==> g.acyclic(),
        g.has(node),
    ensures
        from < dependencies(g, node, kind).len() ==> ({
            let first = visit(
                g,
                rules,
                all,
                Some(node),
                dependencies(g, node, kind)[from as int],
                levels.push(from + 1 < dependencies(g, node, kind).len()),
                visited,
            );
            let rest = each(
                g,
                rules,
                all,
                node,
                kind,
                levels,
                visited_after(g, visited, first),
                from + 1,
            );
            any_violation(each(g, rules, all, node, kind, levels, visited, from)) == (
            any_violation(first) || any_violation(rest))
        }),
        any_violation(group(g, rules, all, node, kind, levels, visited)) == any_violation(
            each(g, rules, all, node, kind, levels, visited, 0),
        ),
        all || !visited.contains(g.packages[node].id) ==> ({
            let inside = visited.insert(g.packages[node].id);
            let normal = group(g, rules, all, node, DependencyKind::Normal, levels, inside);
            let seen_normal = visited_after(g, inside, normal);
            let build = group(g, rules, all, node, DependencyKind::Build, levels, seen_normal);
            let seen_build = visited_after(g, seen_normal, build);
            let development = group(
                g,
                rules,
                all,
                node,
                DependencyKind::Development,
                levels,
                seen_build,
            );
            any_violation(visit(g, rules, all, parent, node, levels, visited)) == (edge_violation(
                g,
                rules,
                parent,
                node,
            ) || any_violation(normal) || any_violation(build) || any_violation(development))
        }),
{
    lemma_each_unfold(g, rules, all, node, kind, levels, visited, from);
    if from < dependencies(g, node, kind).len() {
        let first = visit(
            g,
            rules,
            all,
            Some(node),
            dependencies(g, node, kind)[from as int],
            levels.push(from + 1 < dependencies(g, node, kind).len()),
            visited,
        );
        let rest = each(g, rules, all, node, kind, levels, visited_after(g, visited, first), from + 1);
        lemma_any_violation_concat(first, rest);
    }
    lemma_group_unfold(g, rules, all, node, kind, levels, visited);
    let heading: Seq<LineView> = if dependencies(g, node, kind).len() > 0 && kind
        != DependencyKind::Normal {
        seq![LineView::Group { levels, kind }]
    } else {
        Seq::empty()
    };
    if heading.len() > 0 {
        lemma_single_line(g, heading[0]);
    }
    lemma_any_violation_concat(heading, each(g, rules, all, node, kind, levels, visited, 0));
    if all || !visited.contains(g.packages[node].id) {
        lemma_visit_expanded(g, rules, all, parent, node, levels, visited);
    }
}

/// The lines that showing a node adds begin with the line of the node.
pub proof fn lemma_visit_begins_with_node(
    g: GraphView,
    rules: Seq<RuleView>,
    all: bool,
    parent: Option<usize>,
    node: usize,
    levels: Seq<bool>,
    visited: Set<Seq<char>>,
)
    requires
        all ==> g.acyclic(),
    ensures
        visit(g, rules, all, parent, node, levels, visited).len() > 0,
        visit(g, rules, all, parent, node, levels, visited)[0] == (LineView::Package {
            levels,
            node,
            violation: edge_violation(g, rules, parent, node),
            repeated: visited.contains(g.packages[node].id),
        }),
{
    if !g.has(node) || (!all && visited.contains(g.packages[node].id)) {
        lemma_visit_stops(g, rules, all, parent, node, levels, visited);
    } else {
        lemma_visit_expanded(g, rules, all, parent, node, levels, visited);
    }
}

/// A dependency on an edge that breaks a rule is marked in the run of
/// dependencies that it stands in, whatever has been seen.
pub proof fn lemma_broken_dependency_is_marked(
    g: GraphView,
    rules: Seq<RuleView>,
    all: bool,
    node: usize,
    kind: DependencyKind,
    levels: Seq<bool>,
    visited: Set<Seq<char>>,
    from: nat,
    at: nat,
)
    requires
        all ==> g.acyclic(),
        g.has(node),
        from <= at < dependencies(g, node, kind).len(),
        edge_violation(g, rules, Some(node), dependencies(g, node, kind)[at as int]),
    ensures
        any_violation(each(g, rules, all, node, kind, levels, visited, from)),
    decreases at - from,
{
    let deps = dependencies(g, node, kind);
    let first = visit(
        g,
        rules,
        all,
        Some(node),
        deps[from as int],
        levels.push(from + 1 < deps.len()),
        visited,
    );
    let seen = visited_after(g, visited, first);
    let rest = each(g, rules, all, node, kind, levels, seen, from + 1);
    lemma_each_unfold(g, rules, all, node, kind, levels, visited, from);
    lemma_any_violation_concat(first, rest);
    if from == at {
        lemma_visit_begins_with_node(
            g,
            rules,
            all,
            Some(node),
            deps[from as int],
            levels.push(from + 1 < deps.len()),
            visited,
        );
        assert(marks_violation(first[0]));
    } else {
        lemma_broken_dependency_is_marked(g, rules, all, node, kind, levels, seen, from + 1, at);
    }
}

/// Every edge that breaks a rule is found where it is shown: a node that is
/// expanded marks a violation if the edge to one of its dependencies breaks a
/// rule.
pub proof fn lemma_broken_edge_is_marked(
    g: GraphView,
    rules: Seq<RuleView>,
    all: bool,
    parent: Option<usize>,
    node: usize,
    levels: Seq<bool>,
    visited: Set<Seq<char>>,
    kind: DependencyKind,
    at: nat,
)
    requires
        all ==> g.acyclic(),
        g.has(node),
        all || !visited.contains(g.packages[node].id),
        at < dependencies(g, node, kind).len(),
        edge_violation(g, rules, Some(node), dependencies(g, node, kind)[at as int]),
    ensures
        any_violation(visit(g, rules, all, parent, node, levels, visited)),
{
    let inside = visited.insert(g.packages[node].id);
    let normal = group(g, rules, all, node, DependencyKind::Normal, levels, inside);
    let seen_normal = visited_after(g, inside, normal);
    let build = group(g, rules, all, node, DependencyKind::Build, levels, seen_normal);
    let seen_build = visited_after(g, seen_normal, build);
    let seen = match kind {
        DependencyKind::Normal => inside,
        DependencyKind::Build => seen_normal,
        DependencyKind::Development => seen_build,
    };
    lemma_broken_dependency_is_marked(g, rules, all, node, kind, levels, seen, 0, at);
    lemma_violations_are_sticky(g, rules, all, parent, node, kind, levels, seen, 0);
    lemma_visit_expanded(g, rules, all, parent, node, levels, visited);
}

} // verus!
