//! The text of the tree: how its lines are drawn.

use vstd::prelude::*;
use crate::dependency_graph::formatter::{
    label, lemma_render_without_mark, marks, render, set_off, Chunk, ChunkView, Pattern,
};
use crate::dependency_graph::tree::{Symbols, SymbolsView};
use crate::dependency_graph::walk::{
    all_in_graph, any_violation, in_graph, marks_violation, views, Line, LineView,
};
use crate::dependency_graph::{Graph, GraphView};
use crate::package::DependencyKind;

verus! {

/// What stands in a line below an ancestor: the glyph that runs down to a
/// later sibling of the ancestor, or a blank where there is none, and three
/// blanks.
pub open spec fn stem(continues: bool, symbols: SymbolsView) -> Seq<char> {
    (if continues {
        symbols.down
    } else {
        seq![' ']
    }) + seq![' ', ' ', ' ']
}

/// The stems of a sequence of ancestors, outermost first.
pub open spec fn stems(levels: Seq<bool>, symbols: SymbolsView) -> Seq<char>
    decreases levels.len(),
{
    if levels.len() == 0 {
        Seq::empty()
    } else {
        stems(levels.drop_last(), symbols) + stem(levels.last(), symbols)
    }
}

/// What stands before a package: nothing for a root; else the stems of its
/// ancestors and the branch that leads to it, which is a tee where a sibling
/// follows and an ell where none does.
pub open spec fn branch(levels: Seq<bool>, symbols: SymbolsView) -> Seq<char> {
    if levels.len() == 0 {
        Seq::empty()
    } else {
        stems(levels.drop_last(), symbols) + (if levels.last() {
            symbols.tee
        } else {
            symbols.ell
        }) + symbols.right + symbols.right + seq![' ']
    }
}

/// The heading of a group of dependencies.
pub open spec fn heading(kind: DependencyKind) -> Seq<char> {
    match kind {
        DependencyKind::Normal => Seq::empty(),
        DependencyKind::Build => "[build-dependencies]"@,
        DependencyKind::Development => "[dev-dependencies]"@,
    }
}

/// The mark that a repeated package carries.
pub open spec fn star(repeated: bool) -> Seq<char> {
    if repeated {
        seq![' ', '(', '*', ')']
    } else {
        Seq::empty()
    }
}

/// The template by which a package on an edge that breaks a rule is shown.
pub open spec fn violation_format() -> Seq<ChunkView> {
    seq![ChunkView::ViolationPackage]
}

/// The text of one line of the tree, with its line end. A package is shown
/// by `format`, or by the template for violations where its edge breaks a
/// rule; `marked` is its label as it is set off to mark a violation.
pub open spec fn line_text(
    g: GraphView,
    format: Seq<ChunkView>,
    symbols: SymbolsView,
    line: LineView,
    marked: Seq<char>,
) -> Seq<char> {
    match line {
        LineView::Package { levels, node, violation, repeated } => branch(levels, symbols) + render(
            if violation {
                violation_format()
            } else {
                format
            },
            g.packages[node],
            marked,
        ) + star(repeated) + seq!['\n'],
        LineView::Group { levels, kind } => stems(levels, symbols) + heading(kind) + seq!['\n'],
    }
}

/// The text of the lines, one after the other. `marks` holds for each line
/// the marked label of its package.
pub open spec fn lines_text(
    g: GraphView,
    format: Seq<ChunkView>,
    symbols: SymbolsView,
    lines: Seq<LineView>,
    marks: Seq<Seq<char>>,
) -> Seq<char>
    decreases lines.len(),
{
    if lines.len() == 0 {
        Seq::empty()
    } else {
        lines_text(g, format, symbols, lines.drop_last(), marks.drop_last()) + line_text(
            g,
            format,
            symbols,
            lines.last(),
            marks[lines.len() - 1],
        )
    }
}

/// Whether `marked` can be the marked label of the package that `line`
/// shows. Of a heading nothing is asked.
pub open spec fn mark_fits(g: GraphView, line: LineView, marked: Seq<char>) -> bool {
    match line {
        LineView::Package { node, .. } => set_off(label(g.packages[node]), marked),
        LineView::Group { .. } => true,
    }
}

/// Whether `marks` holds, for each line, what can be the marked label of its
/// package.
pub open spec fn marks_fit(g: GraphView, lines: Seq<LineView>, marks: Seq<Seq<char>>) -> bool {
    &&& marks.len() == lines.len()
    &&& forall|i: int| 0 <= i < lines.len() ==> mark_fits(g, #[trigger] lines[i], marks[i])
}

/// Adds to `out` the stems of the first `count` of `levels`.
fn push_stems(out: &mut String, levels: &Vec<bool>, count: usize, symbols: &Symbols)
    requires
        count <= levels@.len(),
    ensures
        final(out)@ == old(out)@ + stems(levels@.subrange(0, count as int), symbols@),
{
    proof {
        reveal_strlit(" ");
        reveal_strlit("   ");
        assert(" "@ =~= seq![' ']);
        assert("   "@ =~= seq![' ', ' ', ' ']);
        assert(levels@.subrange(0, 0) =~= Seq::<bool>::empty());
        assert(out@ + Seq::<char>::empty() =~= out@);
    }
    let mut i: usize = 0;
    while i < count
        invariant
            i <= count <= levels@.len(),
            " "@ == seq![' '],
            "   "@ == seq![' ', ' ', ' '],
            out@ == old(out)@ + stems(levels@.subrange(0, i as int), symbols@),
        decreases count - i,
    {
        let ghost before = out@;
        if levels[i] {
            out.append(symbols.down);
        } else {
            out.append(" ");
        }
        out.append("   ");
        proof {
            let next = levels@.subrange(0, i + 1);
            assert(next.drop_last() =~= levels@.subrange(0, i as int));
            assert(next.last() == levels@[i as int]);
            assert(out@ =~= before + stem(levels@[i as int], symbols@));
            assert(out@ =~= old(out)@ + stems(next, symbols@));
        }
        i += 1;
    }
}

/// The text of one line of the tree, with its line end.
///
/// A package on an edge that breaks a rule has its label set off in red, as
/// far as colours are in use.
pub fn show_line(graph: &Graph, line: &Line, format: &Pattern, symbols: &Symbols) -> (text: String)
    requires
        in_graph(graph@, line@),
    ensures
        exists|marked: Seq<char>|
            mark_fits(graph@, line@, marked) && text@ == line_text(
                graph@,
                format@,
                symbols@,
                line@,
                marked,
            ),
{
    let mut text = String::new();
    proof {
        reveal_strlit("\n");
        reveal_strlit(" ");
        reveal_strlit(" (*)");
        reveal_strlit("[build-dependencies]");
        reveal_strlit("[dev-dependencies]");
        assert("\n"@ =~= seq!['\n']);
        assert(" "@ =~= seq![' ']);
        assert(" (*)"@ =~= seq![' ', '(', '*', ')']);
    }
    match line {
        Line::Package { levels, node, violation, repeated } => {
            if levels.len() > 0 {
                let last = levels.len() - 1;
                push_stems(&mut text, levels, last, symbols);
                if levels[last] {
                    text.append(symbols.tee);
                } else {
                    text.append(symbols.ell);
                }
                text.append(symbols.right);
                text.append(symbols.right);
                text.append(" ");
                assert(levels@.subrange(0, last as int) =~= levels@.drop_last());
            }
            assert(text@ =~= branch(levels@, symbols@));
            let package = graph.package(*node);
            let shown = if *violation {
                let marking = Pattern(vec![Chunk::ViolationPackage]);
                assert(marking@ =~= violation_format());
                marking.display(package).to_string()
            } else {
                format.display(package).to_string()
            };
            let ghost marked = choose|marked: Seq<char>|
                set_off(label(package@), marked) && shown@ == render(
                    if *violation {
                        violation_format()
                    } else {
                        format@
                    },
                    package@,
                    marked,
                );
            text.append(shown.as_str());
            if *repeated {
                text.append(" (*)");
            }
            text.append("\n");
            proof {
                assert(text@ =~= line_text(graph@, format@, symbols@, line@, marked));
                assert(mark_fits(graph@, line@, marked));
            }
        },
        Line::Group { levels, kind } => {
            push_stems(&mut text, levels, levels.len(), symbols);
            assert(levels@.subrange(0, levels@.len() as int) =~= levels@);
            match kind {
                DependencyKind::Normal => {},
                DependencyKind::Build => {
                    text.append("[build-dependencies]");
                },
                DependencyKind::Development => {
                    text.append("[dev-dependencies]");
                },
            }
            text.append("\n");
            proof {
                let marked = Seq::<char>::empty();
                assert(text@ =~= line_text(graph@, format@, symbols@, line@, marked));
                assert(mark_fits(graph@, line@, marked));
            }
        },
    }
    text
}

/// The text of the lines, one after the other.
pub fn show_lines(graph: &Graph, lines: &Vec<Line>, format: &Pattern, symbols: &Symbols) -> (text:
    String)
    requires
        all_in_graph(graph@, views(lines@)),
    ensures
        exists|marks: Seq<Seq<char>>|
            marks_fit(graph@, views(lines@), marks) && text@ == lines_text(
                graph@,
                format@,
                symbols@,
                views(lines@),
                marks,
            ),
{
    let mut text = String::new();
    let ghost mut marks: Seq<Seq<char>> = Seq::empty();
    let ghost all = views(lines@);
    proof {
        assert(all.subrange(0, 0) =~= Seq::<LineView>::empty());
    }
    let mut i: usize = 0;
    while i < lines.len()
        invariant
            i <= lines@.len(),
            all == views(lines@),
            all_in_graph(graph@, all),
            marks_fit(graph@, all.subrange(0, i as int), marks),
            text@ == lines_text(graph@, format@, symbols@, all.subrange(0, i as int), marks),
        decreases lines@.len() - i,
    {
        assert(in_graph(graph@, all[i as int]));
        let shown = show_line(graph, &lines[i], format, symbols);
        let ghost marked = choose|marked: Seq<char>|
            mark_fits(graph@, lines@[i as int]@, marked) && shown@ == line_text(
                graph@,
                format@,
                symbols@,
                lines@[i as int]@,
                marked,
            );
        text.append(shown.as_str());
        proof {
            let next = all.subrange(0, i + 1);
            assert(next.drop_last() =~= all.subrange(0, i as int));
            assert(marks.push(marked).drop_last() =~= marks);
            marks = marks.push(marked);
            assert forall|k: int| 0 <= k < next.len() implies mark_fits(
                graph@,
                #[trigger] next[k],
                marks[k],
            ) by {
                if k < i {
                    assert(next[k] == all.subrange(0, i as int)[k]);
                }
            }
        }
        i += 1;
    }
    proof {
        assert(all.subrange(0, i as int) =~= all);
    }
    text
}

/// The text of two runs of lines is the text of the first and then the text
/// of the second.
pub proof fn lemma_lines_text_concat(
    g: GraphView,
    format: Seq<ChunkView>,
    symbols: SymbolsView,
    a: Seq<LineView>,
    marks_a: Seq<Seq<char>>,
    b: Seq<LineView>,
    marks_b: Seq<Seq<char>>,
)
    requires
        marks_a.len() == a.len(),
        marks_b.len() == b.len(),
    ensures
        lines_text(g, format, symbols, a + b, marks_a + marks_b) == lines_text(
            g,
            format,
            symbols,
            a,
            marks_a,
        ) + lines_text(g, format, symbols, b, marks_b),
    decreases b.len(),
{
    if b.len() == 0 {
        assert(a + b =~= a);
        assert(marks_a + marks_b =~= marks_a);
        assert(lines_text(g, format, symbols, a, marks_a) + Seq::<char>::empty() =~= lines_text(
            g,
            format,
            symbols,
            a,
            marks_a,
        ));
    } else {
        lemma_lines_text_concat(
            g,
            format,
            symbols,
            a,
            marks_a,
            b.drop_last(),
            marks_b.drop_last(),
        );
        assert((a + b).drop_last() =~= a + b.drop_last());
        assert((marks_a + marks_b).drop_last() =~= marks_a + marks_b.drop_last());
        assert((a + b).last() == b.last());
        assert((marks_a + marks_b)[(a + b).len() - 1] == marks_b[b.len() - 1]);
        let head = lines_text(g, format, symbols, a, marks_a);
        let middle = lines_text(g, format, symbols, b.drop_last(), marks_b.drop_last());
        let last = line_text(g, format, symbols, b.last(), marks_b[b.len() - 1]);
        assert((head + middle) + last =~= head + (middle + last));
    }
}

/// Marks that fit two runs of lines fit the two as one run.
pub proof fn lemma_marks_fit_concat(
    g: GraphView,
    a: Seq<LineView>,
    marks_a: Seq<Seq<char>>,
    b: Seq<LineView>,
    marks_b: Seq<Seq<char>>,
)
    requires
        marks_fit(g, a, marks_a),
        marks_fit(g, b, marks_b),
    ensures
        marks_fit(g, a + b, marks_a + marks_b),
{
    assert forall|i: int| 0 <= i < (a + b).len() implies mark_fits(
        g,
        #[trigger] (a + b)[i],
        (marks_a + marks_b)[i],
    ) by {
        if i < a.len() {
            assert(mark_fits(g, a[i], marks_a[i]));
        } else {
            assert(mark_fits(g, b[i - a.len()], marks_b[i - a.len()]));
        }
    }
}

/// Whether the text of `line` holds the marked label of its package: the
/// line shows a package on an edge that breaks a rule, or it shows a package
/// by a template that marks.
pub open spec fn shows_mark(format: Seq<ChunkView>, line: LineView) -> bool {
    match line {
        LineView::Package { violation, .. } => violation || marks(format),
        LineView::Group { .. } => false,
    }
}

/// Whether two lists of marked labels hold the same label for every line
/// whose text holds one: colours were in use alike wherever it shows.
pub open spec fn marks_agree(
    format: Seq<ChunkView>,
    lines: Seq<LineView>,
    marks_a: Seq<Seq<char>>,
    marks_b: Seq<Seq<char>>,
) -> bool {
    &&& marks_a.len() == lines.len()
    &&& marks_b.len() == lines.len()
    &&& forall|i: int|
        0 <= i < lines.len() && shows_mark(format, #[trigger] lines[i]) ==> marks_a[i] == marks_b[i]
}

/// The text of the lines depends on the marked labels only where they show:
/// two lists of marked labels that agree there give the same text.
pub proof fn lemma_text_by_shown_marks(
    g: GraphView,
    format: Seq<ChunkView>,
    symbols: SymbolsView,
    lines: Seq<LineView>,
    marks_a: Seq<Seq<char>>,
    marks_b: Seq<Seq<char>>,
)
    requires
        marks_agree(format, lines, marks_a, marks_b),
    ensures
        lines_text(g, format, symbols, lines, marks_a) == lines_text(
            g,
            format,
            symbols,
            lines,
            marks_b,
        ),
    decreases lines.len(),
{
    if lines.len() > 0 {
        let last = lines.len() - 1;
        assert forall|i: int|
            0 <= i < last && shows_mark(format, #[trigger] lines.drop_last()[i]) implies marks_a.drop_last()[i]
            == marks_b.drop_last()[i] by {
            assert(lines.drop_last()[i] == lines[i]);
        }
        lemma_text_by_shown_marks(
            g,
            format,
            symbols,
            lines.drop_last(),
            marks_a.drop_last(),
            marks_b.drop_last(),
        );
        match lines[last] {
            LineView::Package { node, violation, .. } => {
                if !shows_mark(format, lines[last]) {
                    lemma_render_without_mark(
                        format,
                        g.packages[node],
                        marks_a[last],
                        marks_b[last],
                    );
                }
            },
            LineView::Group { .. } => {},
        }
    }
}

/// Where no line marks a violation and the template marks none, the text is
/// the same whatever the marked labels are: it does not depend on whether
/// colours are in use.
pub proof fn lemma_text_without_violation(
    g: GraphView,
    format: Seq<ChunkView>,
    symbols: SymbolsView,
    lines: Seq<LineView>,
    marks_a: Seq<Seq<char>>,
    marks_b: Seq<Seq<char>>,
)
    requires
        !any_violation(lines),
        !marks(format),
        marks_a.len() == lines.len(),
        marks_b.len() == lines.len(),
    ensures
        lines_text(g, format, symbols, lines, marks_a) == lines_text(
            g,
            format,
            symbols,
            lines,
            marks_b,
        ),
{
    assert forall|i: int| 0 <= i < lines.len() implies !shows_mark(format, #[trigger] lines[i]) by {
        assert(!marks_violation(lines[i]));
    }
    lemma_text_by_shown_marks(g, format, symbols, lines, marks_a, marks_b);
}

} // verus!
