//! The dependency tree: the walk that lays it out and finds the edges that
//! break a rule, and the text that shows it.

use vstd::prelude::*;
use vstd::hash_set::StringHashSet;
use crate::dependency_graph::draw::{
    lemma_lines_text_concat, lemma_marks_fit_concat, lemma_text_by_shown_marks, lines_text,
    marks_agree, marks_fit, show_lines,
};
use crate::dependency_graph::draw::lemma_text_without_violation;
use crate::dependency_graph::formatter::{marks, Chunk, ChunkView, Pattern};
use crate::dependency_graph::lookup::{
    find_package, found_by, lemma_found_by_is_one, same_kind, LookupError,
};
use crate::dependency_graph::order::{dependencies, sorted_dependencies};
use crate::dependency_graph::reach::{
    broken_below, closed, distinct_ids, lemma_violation_iff_broken_below,
};
use crate::dependency_graph::walk::{
    all_in_graph, any_violation, each, edge_violation, group, in_graph, lemma_any_violation_concat,
    lemma_dependency_ranks_lower, lemma_each_unfold, lemma_group_unfold, lemma_single_line,
    lemma_unvisited_monotone, lemma_unvisited_shrinks, lemma_visit_expanded, lemma_visit_stops,
    lemma_visited_after_concat, shown, views, visit, visited_after, weight, Line, LineView,
};
use crate::dependency_graph::{Graph, GraphView};
use crate::dependency_rule::{DependencyRules, RuleView};
use crate::package::DependencyKind;
use crate::text::str_eq;
use crate::ReturnStatus;

verus! {

/// The glyphs that draw the branches of the tree.
#[derive(Debug, Clone, Copy)]
pub struct Symbols {
    /// Runs down past a line to a later sibling.
    pub down: &'static str,
    /// Branches off to a line that has a later sibling.
    pub tee: &'static str,
    /// Branches off to the last line of its parent.
    pub ell: &'static str,
    /// Leads from the branch to the line.
    pub right: &'static str,
}

/// What [`Symbols`] hold, as mathematical values.
pub ghost struct SymbolsView {
    pub down: Seq<char>,
    pub tee: Seq<char>,
    pub ell: Seq<char>,
    pub right: Seq<char>,
}

impl View for Symbols {
    type V = SymbolsView;

    open spec fn view(&self) -> SymbolsView {
        SymbolsView { down: self.down@, tee: self.tee@, ell: self.ell@, right: self.right@ }
    }
}

/// The set of glyphs to draw the tree with.
#[derive(Debug, Clone, Copy, PartialEq, Eq, Structural)]
pub enum Charset {
    Utf8,
    Ascii,
}

/// The glyphs of a character set.
pub open spec fn glyphs(charset: Charset) -> SymbolsView {
    match charset {
        Charset::Utf8 => SymbolsView { down: "│"@, tee: "├"@, ell: "└"@, right: "─"@ },
        Charset::Ascii => SymbolsView { down: "|"@, tee: "|"@, ell: "`"@, right: "-"@ },
    }
}

/// The character set that a name stands for: `utf8` or `ascii`.
pub open spec fn charset_named(name: Seq<char>) -> Option<Charset> {
    if name == "utf8"@ {
        Some(Charset::Utf8)
    } else if name == "ascii"@ {
        Some(Charset::Ascii)
    } else {
        None
    }
}

impl Charset {
    /// The glyphs of this character set.
    pub fn symbols(&self) -> (symbols: Symbols)
        ensures
            symbols@ == glyphs(*self),
    {
        match self {
            Charset::Utf8 => Symbols { down: "│", tee: "├", ell: "└", right: "─" },
            Charset::Ascii => Symbols { down: "|", tee: "|", ell: "`", right: "-" },
        }
    }

    /// The character set named `name`, if there is one.
    pub fn named(name: &str) -> (charset: Option<Charset>)
        ensures
            charset == charset_named(name@),
    {
        if str_eq(name, "utf8") {
            Some(Charset::Utf8)
        } else if str_eq(name, "ascii") {
            Some(Charset::Ascii)
        } else {
            None
        }
    }
}

impl std::str::FromStr for Charset {
    type Err = &'static str;

    fn from_str(s: &str) -> (r: Result<Charset, &'static str>)
        ensures
            match r {
                Ok(charset) => charset_named(s@) == Some(charset),
                Err(message) => charset_named(s@) is None && message@ == "invalid charset"@,
            },
    {
        match Charset::named(s) {
            Some(charset) => Ok(charset),
            None => Err("invalid charset"),
        }
    }
}

/// A copy of the flags.
fn copy_levels(levels: &Vec<bool>) -> (copy: Vec<bool>)
    ensures
        copy@ == levels@,
{
    let mut copy: Vec<bool> = Vec::new();
    let mut i: usize = 0;
    while i < levels.len()
        invariant
            i <= levels.len(),
            copy@ == levels@.subrange(0, i as int),
        decreases levels.len() - i,
    {
        copy.push(levels[i]);
        assert(levels@.subrange(0, i + 1) =~= levels@.subrange(0, i as int).push(levels@[i as int]));
        i += 1;
    }
    assert(levels@.subrange(0, i as int) =~= levels@);
    copy
}

/// Adds to `lines` the line of `node` and, unless the node stops there, the
/// lines of everything below it, and says whether a rule is broken.
///
/// `parent` is the node under which `node` is shown and `levels_continue`
/// holds the flags of its line. `visited_deps` holds the identifiers seen so
/// far, and the identifiers of all the packages shown are added to it. A
/// package that was seen before is marked as repeated, and is expanded again
/// only if `all` is set. The status that comes back is a violation if
/// `parent_return_status` is one, or if one of the lines added shows a
/// package on an edge that breaks a rule.
pub fn print_package(
    graph: &Graph,
    parent: Option<usize>,
    node: usize,
    all: bool,
    visited_deps: &mut StringHashSet,
    levels_continue: &mut Vec<bool>,
    rules: &DependencyRules,
    parent_return_status: ReturnStatus,
    lines: &mut Vec<Line>,
) -> (status: ReturnStatus)
    requires
        graph@.has(node),
        parent matches Some(p) ==> graph@.has(p),
        all ==> graph@.acyclic(),
    ensures
        all_in_graph(
            graph@,
            visit(graph@, rules@, all, parent, node, old(levels_continue)@, old(visited_deps)@),
        ),
        final(levels_continue)@ == old(levels_continue)@,
        views(final(lines)@) == views(old(lines)@) + visit(
            graph@,
            rules@,
            all,
            parent,
            node,
            old(levels_continue)@,
            old(visited_deps)@,
        ),
        final(visited_deps)@ == visited_after(
            graph@,
            old(visited_deps)@,
            visit(graph@, rules@, all, parent, node, old(levels_continue)@, old(visited_deps)@),
        ),
        status == ReturnStatus::of(
            parent_return_status.violated() || any_violation(
                visit(graph@, rules@, all, parent, node, old(levels_continue)@, old(visited_deps)@),
            ),
        ),
        old(visited_deps)@ == Set::<Seq<char>>::empty() && closed(graph@) && (all || distinct_ids(
            graph@,
        )) ==> status == ReturnStatus::of(
            parent_return_status.violated() || edge_violation(graph@, rules@, parent, node)
                || broken_below(graph@, rules@, node),
        ),
    decreases weight(graph@, all, node, old(visited_deps)@), (if all { 3nat } else { 0nat }), 0nat,
{
    let ghost g = graph@;
    proof {
        if visited_deps@ == Set::<Seq<char>>::empty() && closed(g) && (all || distinct_ids(g)) {
            lemma_violation_iff_broken_below(g, rules@, all, parent, node, levels_continue@);
        }
    }
    let ghost visited = visited_deps@;
    let ghost levels = levels_continue@;
    let ghost before = views(lines@);
    let package = graph.package(node);
    let seen = !visited_deps.insert(package.id.repr.clone());
    let is_violation = match parent {
        Some(p) => rules.forbid(graph.package(p).id.repr.as_str(), package.id.repr.as_str()),
        None => false,
    };
    let ghost line = LineView::Package { levels, node, violation: is_violation, repeated: seen };
    lines.push(
        Line::Package {
            levels: copy_levels(levels_continue),
            node,
            violation: is_violation,
            repeated: seen,
        },
    );
    let ghost inside = visited.insert(g.packages[node].id);
    proof {
        assert(views(lines@) =~= before + seq![line]);
        assert(in_graph(g, line));
    }
    if seen && !all {
        proof {
            lemma_visit_stops(g, rules@, all, parent, node, levels, visited);
            lemma_single_line(g, line);
            assert(visited_after(g, visited, seq![line]) =~= inside);
            assert(inside =~= visited);
        }
        return ReturnStatus::from_flag(is_violation || parent_return_status.is_violation());
    }
    let ghost normal = group(g, rules@, all, node, DependencyKind::Normal, levels, inside);
    let ghost seen_normal = visited_after(g, inside, normal);
    let ghost build = group(g, rules@, all, node, DependencyKind::Build, levels, seen_normal);
    let ghost seen_build = visited_after(g, seen_normal, build);
    let ghost development = group(
        g,
        rules@,
        all,
        node,
        DependencyKind::Development,
        levels,
        seen_build,
    );
    proof {
        lemma_visit_expanded(g, rules@, all, parent, node, levels, visited);
        if !all {
            lemma_unvisited_shrinks(g, visited, inside, node);
            lemma_visited_after_concat(g, inside, normal, build);
            lemma_unvisited_shrinks(g, visited, seen_normal, node);
            lemma_unvisited_shrinks(g, visited, seen_build, node);
        }
    }
    let mut found = is_violation;
    let current = ReturnStatus::from_flag(found || parent_return_status.is_violation());
    let result = print_dependencies(
        graph,
        node,
        all,
        visited_deps,
        levels_continue,
        DependencyKind::Normal,
        rules,
        current,
        lines,
    );
    if result.is_violation() {
        found = true;
    }
    let current = ReturnStatus::from_flag(found || parent_return_status.is_violation());
    let result = print_dependencies(
        graph,
        node,
        all,
        visited_deps,
        levels_continue,
        DependencyKind::Build,
        rules,
        current,
        lines,
    );
    if result.is_violation() {
        found = true;
    }
    let current = ReturnStatus::from_flag(found || parent_return_status.is_violation());
    let result = print_dependencies(
        graph,
        node,
        all,
        visited_deps,
        levels_continue,
        DependencyKind::Development,
        rules,
        current,
        lines,
    );
    if result.is_violation() {
        found = true;
    }
    proof {
        let whole = seq![line] + normal + build + development;
        assert(views(lines@) =~= before + whole);
        assert forall|k: int| 0 <= k < whole.len() implies in_graph(g, #[trigger] whole[k]) by {
            if k == 0 {
            } else if k < 1 + normal.len() {
                assert(whole[k] == normal[k - 1]);
            } else if k < 1 + normal.len() + build.len() {
                assert(whole[k] == build[k - 1 - normal.len()]);
            } else {
                assert(whole[k] == development[k - 1 - normal.len() - build.len()]);
            }
        }
    }
    ReturnStatus::from_flag(found || parent_return_status.is_violation())
}

/// Adds to `lines` the lines of one group of dependencies of `node`: a
/// heading for a group of build or development dependencies that is not
/// empty, and then each dependency of that kind with everything below it, in
/// ascending order of identifiers. The status that comes back is a violation
/// if `parent_return_status` is one, or if one of the lines added shows a
/// package on an edge that breaks a rule.
pub fn print_dependencies(
    graph: &Graph,
    node: usize,
    all: bool,
    visited_deps: &mut StringHashSet,
    levels_continue: &mut Vec<bool>,
    kind: DependencyKind,
    rules: &DependencyRules,
    parent_return_status: ReturnStatus,
    lines: &mut Vec<Line>,
) -> (status: ReturnStatus)
    requires
        graph@.has(node),
        all ==> graph@.acyclic(),
    ensures
        all_in_graph(
            graph@,
            group(graph@, rules@, all, node, kind, old(levels_continue)@, old(visited_deps)@),
        ),
        final(levels_continue)@ == old(levels_continue)@,
        views(final(lines)@) == views(old(lines)@) + group(
            graph@,
            rules@,
            all,
            node,
            kind,
            old(levels_continue)@,
            old(visited_deps)@,
        ),
        final(visited_deps)@ == visited_after(
            graph@,
            old(visited_deps)@,
            group(graph@, rules@, all, node, kind, old(levels_continue)@, old(visited_deps)@),
        ),
        status == ReturnStatus::of(
            parent_return_status.violated() || any_violation(
                group(graph@, rules@, all, node, kind, old(levels_continue)@, old(visited_deps)@),
            ),
        ),
    decreases weight(graph@, all, node, old(visited_deps)@), 2nat, 0nat,
{
    let ghost g = graph@;
    let ghost visited = visited_deps@;
    let ghost levels = levels_continue@;
    let ghost before = views(lines@);
    let ghost whole = group(g, rules@, all, node, kind, levels, visited);
    let ghost rows = each(g, rules@, all, node, kind, levels, visited, 0);
    let deps = sorted_dependencies(graph, node, kind);
    proof {
        lemma_group_unfold(g, rules@, all, node, kind, levels, visited);
        lemma_each_unfold(g, rules@, all, node, kind, levels, visited, 0);
    }
    if deps.len() == 0 {
        proof {
            assert(whole =~= Seq::<LineView>::empty());
            assert(before + whole =~= before);
            assert(visited_after(g, visited, whole) =~= visited);
        }
        return parent_return_status;
    }
    let ghost heading: Seq<LineView> = if kind != DependencyKind::Normal {
        seq![LineView::Group { levels, kind }]
    } else {
        Seq::empty()
    };
    match kind {
        DependencyKind::Normal => {},
        _ => {
            lines.push(Line::Group { levels: copy_levels(levels_continue), kind });
        },
    }
    proof {
        assert(views(lines@) =~= before + heading);
        assert(whole == heading + rows);
        if kind != DependencyKind::Normal {
            lemma_single_line(g, heading[0]);
        }
        assert(shown(g, heading) =~= Set::<Seq<char>>::empty());
        assert(!any_violation(heading));
    }
    let mut is_violation = false;
    let ghost mut done: Seq<LineView> = Seq::empty();
    let mut i: usize = 0;
    while i < deps.len()
        invariant
            i <= deps@.len(),
            deps@.len() > 0,
            deps@ == dependencies(g, node, kind),
            forall|k: int| 0 <= k < deps@.len() ==> g.has(#[trigger] deps@[k]),
            g == graph@,
            g.has(node),
            all ==> g.acyclic(),
            levels_continue@ == levels,
            all_in_graph(g, done),
            visited == old(visited_deps)@,
            views(lines@) == before + heading + done,
            visited.subset_of(visited_deps@),
            visited_deps@ == visited_after(g, visited, done),
            done + each(g, rules@, all, node, kind, levels, visited_deps@, i as nat) == rows,
            i == 0 ==> done.len() == 0,
            is_violation == (i > 0 && (parent_return_status.violated() || any_violation(done))),
        decreases deps@.len() - i,
    {
        let ghost seen = visited_deps@;
        let ghost first = visit(
            g,
            rules@,
            all,
            Some(node),
            deps@[i as int],
            levels.push(i + 1 < deps@.len()),
            seen,
        );
        levels_continue.push(i + 1 < deps.len());
        let current_return_status = if is_violation {
            ReturnStatus::Violation
        } else {
            parent_return_status
        };
        proof {
            lemma_each_unfold(g, rules@, all, node, kind, levels, seen, i as nat);
            if all {
                lemma_dependency_ranks_lower(g, node, kind, i as int);
            } else {
                lemma_unvisited_monotone(g, visited, seen);
            }
        }
        let result = print_package(
            graph,
            Some(node),
            deps[i],
            all,
            visited_deps,
            levels_continue,
            rules,
            current_return_status,
            lines,
        );
        levels_continue.pop();
        if result.is_violation() {
            is_violation = true;
        }
        proof {
            assert(levels_continue@ =~= levels);
            assert(views(lines@) =~= before + heading + (done + first));
            lemma_visited_after_concat(g, visited, done, first);
            lemma_any_violation_concat(done, first);
            assert forall|k: int| 0 <= k < (done + first).len() implies in_graph(
                g,
                #[trigger] (done + first)[k],
            ) by {
                if k < done.len() {
                    assert((done + first)[k] == done[k]);
                } else {
                    assert((done + first)[k] == first[k - done.len()]);
                }
            }
            assert(done + first + each(
                g,
                rules@,
                all,
                node,
                kind,
                levels,
                visited_after(g, seen, first),
                (i + 1) as nat,
            ) =~= rows);
            done = done + first;
        }
        i += 1;
    }
    proof {
        lemma_each_unfold(g, rules@, all, node, kind, levels, visited_deps@, i as nat);
        assert(done =~= rows);
        assert(views(lines@) =~= before + whole);
        assert forall|k: int| 0 <= k < whole.len() implies in_graph(g, #[trigger] whole[k]) by {
            if k >= heading.len() {
                assert(whole[k] == rows[k - heading.len()]);
            }
        }
        lemma_visited_after_concat(g, visited, heading, rows);
        assert(visited_after(g, visited, heading) =~= visited);
        lemma_any_violation_concat(heading, rows);
    }
    ReturnStatus::from_flag(is_violation || parent_return_status.is_violation())
}

/// The lines of the tree below `root`, drawn from scratch: nothing has been
/// seen, and the root has no parent.
pub open spec fn tree(g: GraphView, rules: Seq<RuleView>, all: bool, root: usize) -> Seq<LineView> {
    visit(g, rules, all, None, root, Seq::empty(), Set::empty())
}

/// Walks the tree below `root` and hands out its lines, with the status of
/// the whole tree: a violation if one of the lines shows a package on an edge
/// that breaks a rule.
///
/// With `all` set every occurrence of a package is expanded, which comes to
/// an end only in a graph without cycles; without it a package is expanded
/// where it is first shown.
pub fn tree_lines(graph: &Graph, root: usize, all: bool, rules: &DependencyRules) -> (r: (
    Vec<Line>,
    ReturnStatus,
))
    requires
        graph@.has(root),
        all ==> graph@.acyclic(),
    ensures
        views(r.0@) == tree(graph@, rules@, all, root),
        all_in_graph(graph@, views(r.0@)),
        r.1 == ReturnStatus::of(any_violation(tree(graph@, rules@, all, root))),
        closed(graph@) && (all || distinct_ids(graph@)) ==> r.1 == ReturnStatus::of(
            broken_below(graph@, rules@, root),
        ),
{
    let mut visited_deps = StringHashSet::new();
    let mut levels_continue: Vec<bool> = Vec::new();
    let mut lines: Vec<Line> = Vec::new();
    proof {
        assert(views(lines@) =~= Seq::<LineView>::empty());
    }
    let status = print_package(
        graph,
        None,
        root,
        all,
        &mut visited_deps,
        &mut levels_continue,
        rules,
        ReturnStatus::NoViolation,
        &mut lines,
    );
    proof {
        assert(Seq::<LineView>::empty() + tree(graph@, rules@, all, root) =~= tree(
            graph@,
            rules@,
            all,
            root,
        ));
        if closed(graph@) && (all || distinct_ids(graph@)) {
            lemma_tree_finds_broken_edges(graph@, rules@, all, root);
        }
    }
    (lines, status)
}

/// A tree as text, and whether it shows a violation.
#[derive(Debug)]
pub struct Printed {
    /// The lines of the tree, each with its line end.
    pub text: String,
    /// `Violation` if an edge of the tree breaks a rule.
    pub status: ReturnStatus,
}

/// Whether `printed` is the tree below `root` as it is drawn where `marks`
/// are the marked labels of its packages: the text of its lines, and the
/// status that says whether one of them marks a violation.
pub open spec fn draws(
    g: GraphView,
    rules: Seq<RuleView>,
    all: bool,
    root: usize,
    format: Seq<ChunkView>,
    symbols: SymbolsView,
    marks: Seq<Seq<char>>,
    printed: Printed,
) -> bool {
    let lines = tree(g, rules, all, root);
    &&& marks_fit(g, lines, marks)
    &&& printed.text@ == lines_text(g, format, symbols, lines, marks)
    &&& printed.status == ReturnStatus::of(any_violation(lines))
}

/// Draws the tree below `root`: each package by `format`, or set off where
/// the edge that leads to it breaks a rule, behind the branches drawn with
/// `symbols`.
pub fn print_tree(
    graph: &Graph,
    root: usize,
    format: &Pattern,
    symbols: &Symbols,
    all: bool,
    rules: &DependencyRules,
) -> (printed: Printed)
    requires
        graph@.has(root),
        all ==> graph@.acyclic(),
    ensures
        printed.status == ReturnStatus::of(any_violation(tree(graph@, rules@, all, root))),
        closed(graph@) && (all || distinct_ids(graph@)) ==> printed.status == ReturnStatus::of(
            broken_below(graph@, rules@, root),
        ),
        exists|marks: Seq<Seq<char>>|
            draws(graph@, rules@, all, root, format@, symbols@, marks, printed),
{
    let (lines, status) = tree_lines(graph, root, all, rules);
    let text = show_lines(graph, &lines, format, symbols);
    let printed = Printed { text, status };
    proof {
        let marks = choose|marks: Seq<Seq<char>>|
            marks_fit(graph@, views(lines@), marks) && text@ == lines_text(
                graph@,
                format@,
                symbols@,
                views(lines@),
                marks,
            );
        assert(draws(graph@, rules@, all, root, format@, symbols@, marks, printed));
    }
    printed
}

/// The lines of the trees below `roots`, one tree after the other, each
/// drawn from scratch.
pub open spec fn forest(g: GraphView, rules: Seq<RuleView>, all: bool, roots: Seq<usize>) -> Seq<
    LineView,
>
    decreases roots.len(),
{
    if roots.len() == 0 {
        Seq::empty()
    } else {
        forest(g, rules, all, roots.drop_last()) + tree(g, rules, all, roots.last())
    }
}

/// Whether `roots` holds, for each of the first members, the node that is
/// found for it.
pub open spec fn roots_found(g: GraphView, members: Seq<String>, roots: Seq<usize>) -> bool {
    &&& roots.len() <= members.len()
    &&& forall|k: int|
        0 <= k < roots.len() ==> found_by(g, (#[trigger] members[k])@, Ok(roots[k]))
}

/// The template `{p}`, which shows the package and nothing else.
pub open spec fn package_format() -> Seq<ChunkView> {
    seq![ChunkView::Package]
}

/// Two drawings of the tree below one root, of the same graph under the same
/// rules, have the same status; and they have the same text, byte for byte,
/// where colours were in use alike on every line that shows a marked label.
/// So they do wherever no line marks a violation and the template marks
/// none.
pub proof fn lemma_print_tree_is_determined(
    g: GraphView,
    rules: Seq<RuleView>,
    all: bool,
    root: usize,
    format: Seq<ChunkView>,
    symbols: SymbolsView,
    marks_a: Seq<Seq<char>>,
    a: Printed,
    marks_b: Seq<Seq<char>>,
    b: Printed,
)
    requires
        draws(g, rules, all, root, format, symbols, marks_a, a),
        draws(g, rules, all, root, format, symbols, marks_b, b),
    ensures
        a.status == b.status,
        marks_agree(format, tree(g, rules, all, root), marks_a, marks_b) ==> a.text@ == b.text@,
        !any_violation(tree(g, rules, all, root)) && !marks(format) ==> a.text@ == b.text@,
{
    let lines = tree(g, rules, all, root);
    if marks_agree(format, lines, marks_a, marks_b) {
        lemma_text_by_shown_marks(g, format, symbols, lines, marks_a, marks_b);
    }
    if !any_violation(lines) && !marks(format) {
        lemma_text_without_violation(g, format, symbols, lines, marks_a, marks_b);
    }
}

/// A tree marks a violation exactly when some edge that can be reached from
/// its root breaks a rule.
pub proof fn lemma_tree_finds_broken_edges(
    g: GraphView,
    rules: Seq<RuleView>,
    all: bool,
    root: usize,
)
    requires
        all ==> g.acyclic(),
        closed(g),
        all || distinct_ids(g),
        g.has(root),
    ensures
        any_violation(tree(g, rules, all, root)) == broken_below(g, rules, root),
{
    lemma_violation_iff_broken_below(g, rules, all, None, root, Seq::empty());
}

/// The trees of a workspace mark a violation exactly when some edge that can
/// be reached from one of their roots breaks a rule.
pub proof fn lemma_forest_finds_broken_edges(
    g: GraphView,
    rules: Seq<RuleView>,
    all: bool,
    roots: Seq<usize>,
)
    requires
        all ==> g.acyclic(),
        closed(g),
        all || distinct_ids(g),
        forall|k: int| 0 <= k < roots.len() ==> g.has(#[trigger] roots[k]),
    ensures
        any_violation(forest(g, rules, all, roots)) == broken_below_any(g, rules, roots),
{
    lemma_forest_violation(g, rules, all, roots);
    assert forall|k: int| 0 <= k < roots.len() implies any_violation(
        tree(g, rules, all, #[trigger] roots[k]),
    ) == broken_below(g, rules, roots[k]) by {
        lemma_tree_finds_broken_edges(g, rules, all, roots[k]);
    }
    if any_violation(forest(g, rules, all, roots)) {
        let k = choose|k: int|
            0 <= k < roots.len() && any_violation(tree(g, rules, all, #[trigger] roots[k]));
        assert(broken_below(g, rules, roots[k]));
    }
    if exists|k: int| 0 <= k < roots.len() && broken_below(g, rules, #[trigger] roots[k]) {
        let k = choose|k: int| 0 <= k < roots.len() && broken_below(g, rules, #[trigger] roots[k]);
        assert(any_violation(tree(g, rules, all, roots[k])));
    }
}

/// The trees of a workspace show a violation exactly when one of them does.
pub proof fn lemma_forest_violation(
    g: GraphView,
    rules: Seq<RuleView>,
    all: bool,
    roots: Seq<usize>,
)
    ensures
        any_violation(forest(g, rules, all, roots)) == exists|k: int|
            0 <= k < roots.len() && any_violation(tree(g, rules, all, #[trigger] roots[k])),
    decreases roots.len(),
{
    if roots.len() > 0 {
        let before = roots.drop_last();
        lemma_forest_violation(g, rules, all, before);
        lemma_any_violation_concat(forest(g, rules, all, before), tree(g, rules, all, roots.last()));
        if any_violation(forest(g, rules, all, before)) {
            let k = choose|k: int|
                0 <= k < before.len() && any_violation(tree(g, rules, all, #[trigger] before[k]));
            assert(before[k] == roots[k]);
        }
        if exists|k: int|
            0 <= k < roots.len() && any_violation(tree(g, rules, all, #[trigger] roots[k])) {
            let k = choose|k: int|
                0 <= k < roots.len() && any_violation(tree(g, rules, all, #[trigger] roots[k]));
            if k < before.len() {
                assert(before[k] == roots[k]);
            }
        }
    }
}

/// What showing the trees of a workspace gives.
#[derive(Debug)]
pub struct Report {
    /// The trees of the members that were found, in the order of the
    /// members, up to the first that was not.
    pub text: String,
    /// Whether an edge of one of the trees breaks a rule; or why a member
    /// was not found.
    pub outcome: Result<ReturnStatus, LookupError>,
}

/// Whether `report` is what showing the members of a workspace gives, where
/// `roots` are the nodes found for the first members and `marks` the marked
/// labels of the packages shown.
///
/// The text holds the trees below the roots. Where every member was found,
/// the outcome is the status of all the trees together; else it is the error
/// of the first member that was not found.
pub open spec fn reports(
    g: GraphView,
    rules: Seq<RuleView>,
    all: bool,
    members: Seq<String>,
    roots: Seq<usize>,
    marks: Seq<Seq<char>>,
    report: Report,
) -> bool {
    let lines = forest(g, rules, all, roots);
    &&& roots_found(g, members, roots)
    &&& marks_fit(g, lines, marks)
    &&& report.text@ == lines_text(g, package_format(), glyphs(Charset::Utf8), lines, marks)
    &&& match report.outcome {
        Ok(status) => {
            &&& roots.len() == members.len()
            &&& status == ReturnStatus::of(any_violation(lines))
            &&& closed(g) && (all || distinct_ids(g)) ==> status == ReturnStatus::of(
                broken_below_any(g, rules, roots),
            )
        },
        Err(e) => roots.len() < members.len() && found_by(g, members[roots.len() as int]@, Err(e)),
    }
}

/// Whether some edge that can be reached from one of the roots breaks a rule.
pub open spec fn broken_below_any(g: GraphView, rules: Seq<RuleView>, roots: Seq<usize>) -> bool {
    exists|k: int| 0 <= k < roots.len() && broken_below(g, rules, #[trigger] roots[k])
}

/// Two reports on the same members, of the same graph under the same rules,
/// rest on the same roots and have the same outcome: the same status, or an
/// error of the same kind for the same member. And they have the same text,
/// byte for byte, where colours were in use alike on every line that marks a
/// violation; so they do wherever no line marks one.
pub proof fn lemma_print_is_determined(
    g: GraphView,
    rules: Seq<RuleView>,
    all: bool,
    members: Seq<String>,
    roots_a: Seq<usize>,
    marks_a: Seq<Seq<char>>,
    a: Report,
    roots_b: Seq<usize>,
    marks_b: Seq<Seq<char>>,
    b: Report,
)
    requires
        reports(g, rules, all, members, roots_a, marks_a, a),
        reports(g, rules, all, members, roots_b, marks_b, b),
    ensures
        roots_a == roots_b,
        match (a.outcome, b.outcome) {
            (Ok(x), Ok(y)) => x == y,
            (Err(e), Err(f)) => same_kind(e, f),
            _ => false,
        },
        marks_agree(package_format(), forest(g, rules, all, roots_a), marks_a, marks_b) ==> a.text@
            == b.text@,
        !any_violation(forest(g, rules, all, roots_a)) ==> a.text@ == b.text@,
{
    let ka = roots_a.len() as int;
    let kb = roots_b.len() as int;
    if ka < kb {
        assert(found_by(g, members[ka]@, Ok(roots_b[ka])));
        if let Err(e) = a.outcome {
            lemma_found_by_is_one(g, members[ka]@, Err(e), Ok(roots_b[ka]));
        }
    }
    if kb < ka {
        assert(found_by(g, members[kb]@, Ok(roots_a[kb])));
        if let Err(f) = b.outcome {
            lemma_found_by_is_one(g, members[kb]@, Ok(roots_a[kb]), Err(f));
        }
    }
    assert forall|k: int| 0 <= k < ka implies roots_a[k] == roots_b[k] by {
        assert(found_by(g, members[k]@, Ok(roots_a[k])));
        assert(found_by(g, members[k]@, Ok(roots_b[k])));
        lemma_found_by_is_one(g, members[k]@, Ok(roots_a[k]), Ok(roots_b[k]));
    }
    assert(roots_a =~= roots_b);
    if let (Err(e), Err(f)) = (a.outcome, b.outcome) {
        lemma_found_by_is_one(g, members[ka]@, Err(e), Err(f));
    }
    let lines = forest(g, rules, all, roots_a);
    assert(!marks(package_format())) by {
        assert(package_format()[0] is Package);
    }
    if marks_agree(package_format(), lines, marks_a, marks_b) {
        lemma_text_by_shown_marks(
            g,
            package_format(),
            glyphs(Charset::Utf8),
            lines,
            marks_a,
            marks_b,
        );
    }
    if !any_violation(lines) {
        lemma_text_without_violation(
            g,
            package_format(),
            glyphs(Charset::Utf8),
            lines,
            marks_a,
            marks_b,
        );
    }
}

/// Shows the tree of each member of a workspace, in the order of the members,
/// and says whether an edge of any of them breaks a rule.
///
/// Each member is looked up by its name. The first that is not found ends the
/// run with its error, behind the trees of the members before it. With `all`
/// set every occurrence of a package is expanded, which comes to an end only
/// in a graph without cycles. Packages are shown by the template `{p}`, with
/// the glyphs of UTF-8.
pub fn print(graph: &Graph, members: &Vec<String>, rules: &DependencyRules, all: bool) -> (report:
    Report)
    requires
        all ==> graph@.acyclic(),
    ensures
        exists|roots: Seq<usize>, marks: Seq<Seq<char>>|
            reports(graph@, rules@, all, members@, roots, marks, report),
{
    let ghost g = graph@;
    let format = Pattern(vec![Chunk::Package]);
    let symbols = Charset::Utf8.symbols();
    let mut text = String::new();
    let mut return_status = ReturnStatus::NoViolation;
    let ghost mut roots: Seq<usize> = Seq::empty();
    let ghost mut marks: Seq<Seq<char>> = Seq::empty();
    proof {
        assert(format@ =~= package_format());
    }
    let mut i: usize = 0;
    while i < members.len()
        invariant
            i <= members@.len(),
            g == graph@,
            all ==> g.acyclic(),
            format@ == package_format(),
            symbols@ == glyphs(Charset::Utf8),
            roots.len() == i,
            roots_found(g, members@, roots),
            forall|k: int| 0 <= k < roots.len() ==> g.has(#[trigger] roots[k]),
            marks_fit(g, forest(g, rules@, all, roots), marks),
            text@ == lines_text(
                g,
                package_format(),
                glyphs(Charset::Utf8),
                forest(g, rules@, all, roots),
                marks,
            ),
            return_status == ReturnStatus::of(any_violation(forest(g, rules@, all, roots))),
        decreases members@.len() - i,
    {
        let found = find_package(members[i].as_str(), graph);
        let root = match found {
            Ok(root) => root,
            Err(e) => {
                let report = Report { text, outcome: Err(e) };
                proof {
                    assert(reports(g, rules@, all, members@, roots, marks, report));
                }
                return report;
            },
        };
        proof {
            let asked = members@[i as int]@;
            assert(found_by(g, asked, Ok(root)));
            assert(g.has(root)) by {
                let empty = Set::<usize>::empty();
                assert(empty.insert(root).contains(root));
            }
        }
        let printed = print_tree(graph, root, &format, &symbols, all, rules);
        let ghost added = tree(g, rules@, all, root);
        let ghost added_marks = choose|added_marks: Seq<Seq<char>>|
            draws(
                g,
                rules@,
                all,
                root,
                package_format(),
                glyphs(Charset::Utf8),
                added_marks,
                printed,
            );
        text.append(printed.text.as_str());
        return_status = return_status.combine(printed.status);
        proof {
            let before = forest(g, rules@, all, roots);
            let next = roots.push(root);
            assert(next.drop_last() =~= roots);
            assert(forest(g, rules@, all, next) == before + added);
            lemma_lines_text_concat(
                g,
                package_format(),
                glyphs(Charset::Utf8),
                before,
                marks,
                added,
                added_marks,
            );
            lemma_marks_fit_concat(g, before, marks, added, added_marks);
            lemma_any_violation_concat(before, added);
            roots = next;
            marks = marks + added_marks;
        }
        i += 1;
    }
    let report = Report { text, outcome: Ok(return_status) };
    proof {
        if closed(g) && (all || distinct_ids(g)) {
            lemma_forest_finds_broken_edges(g, rules@, all, roots);
        }
        assert(reports(g, rules@, all, members@, roots, marks, report));
    }
    report
}

} // verus!
