use check_deprule::dependency_graph::draw::{show_line, show_lines};
use check_deprule::dependency_graph::tree::{print_tree, tree_lines, Charset, Symbols};
use check_deprule::dependency_graph::walk::Line;
use check_deprule::dependency_graph::formatter::Pattern;
use check_deprule::dependency_graph::Graph;
use check_deprule::dependency_rule::{DependencyRule, DependencyRules};
use check_deprule::package::{DependencyKind, Package, PackageId};
use check_deprule::ReturnStatus;
use colored::Colorize;
use petgraph::stable_graph::StableGraph;

fn package(name: &str) -> Package {
    Package::new(
        name,
        "1.0.0",
        PackageId {
            repr: format!("{} 1.0.0", name),
        },
        &format!("/ws/{}", name),
    )
}

fn graph_of(names: &[&str], edges: &[(usize, usize, DependencyKind)]) -> Graph {
    let mut graph = StableGraph::new();
    let nodes: Vec<_> = names.iter().map(|name| graph.add_node(package(name))).collect();
    for (from, to, kind) in edges {
        graph.add_edge(nodes[*from], nodes[*to], *kind);
    }
    Graph { graph }
}

/// The rule that forbids the package named `owner` to depend on the packages
/// named `forbidden`, each written as the identifier that `package` gives.
fn rule(owner: &str, forbidden: &[&str]) -> DependencyRule {
    DependencyRule::new(
        package(owner).id,
        forbidden.iter().map(|name| package(name).id).collect(),
    )
}

fn no_rules() -> DependencyRules {
    DependencyRules { rules: Vec::new() }
}

fn utf8() -> Symbols {
    Charset::Utf8.symbols()
}

fn plain(graph: &Graph, root: usize, all: bool, rules: &DependencyRules) -> (String, ReturnStatus) {
    let format = Pattern::new("{p}").unwrap();
    let printed = print_tree(graph, root, &format, &utf8(), all, rules);
    (printed.text, printed.status)
}

const N: DependencyKind = DependencyKind::Normal;
const B: DependencyKind = DependencyKind::Build;
const D: DependencyKind = DependencyKind::Development;

#[test]
fn single_package_is_one_line() {
    let graph = graph_of(&["a"], &[]);
    let (text, status) = plain(&graph, 0, false, &no_rules());
    assert_eq!(text, "a v1.0.0 (/ws/a)\n");
    assert!(matches!(status, ReturnStatus::NoViolation));
}

#[test]
fn forbidden_dependency_is_marked_and_reported() {
    let graph = graph_of(&["A", "B"], &[(0, 1, N)]);
    let rules = DependencyRules {
        rules: vec![rule("A", &["B"])],
    };

    let (lines, status) = tree_lines(&graph, 0, false, &rules);
    assert!(matches!(status, ReturnStatus::Violation));
    assert_eq!(lines.len(), 2);
    assert!(matches!(
        &lines[0],
        Line::Package { levels, node: 0, violation: false, repeated: false } if levels.is_empty()
    ));
    assert!(matches!(
        &lines[1],
        Line::Package { levels, node: 1, violation: true, repeated: false } if levels == &vec![false]
    ));

    let (text, status) = plain(&graph, 0, false, &rules);
    assert!(matches!(status, ReturnStatus::Violation));
    assert_eq!(
        text,
        format!("A v1.0.0 (/ws/A)\n└── {} (/ws/B)\n", "B v1.0.0".red())
    );
}

#[test]
fn rule_about_another_package_marks_nothing() {
    let graph = graph_of(&["A", "B"], &[(0, 1, N)]);
    let rules = DependencyRules {
        rules: vec![rule("B", &["A"]), rule("A", &["C"])],
    };
    let (text, status) = plain(&graph, 0, false, &rules);
    assert!(matches!(status, ReturnStatus::NoViolation));
    assert_eq!(text, "A v1.0.0 (/ws/A)\n└── B v1.0.0 (/ws/B)\n");
}

#[test]
fn root_cannot_violate() {
    let graph = graph_of(&["A", "B"], &[(0, 1, N)]);
    let rules = DependencyRules {
        rules: vec![rule("A", &["A"]), rule("B", &["B"])],
    };
    let (_, status) = tree_lines(&graph, 0, false, &rules);
    assert!(matches!(status, ReturnStatus::NoViolation));
}

#[test]
fn without_rules_nothing_is_a_violation() {
    let graph = graph_of(
        &["A", "B", "C", "D"],
        &[(0, 1, N), (0, 2, B), (1, 3, D), (2, 3, N)],
    );
    for all in [false, true] {
        let (lines, status) = tree_lines(&graph, 0, all, &no_rules());
        assert!(matches!(status, ReturnStatus::NoViolation));
        assert!(lines
            .iter()
            .all(|line| !matches!(line, Line::Package { violation: true, .. })));
    }
}

#[test]
fn diamond_shows_the_shared_package_twice() {
    let graph = graph_of(
        &["A", "B", "C", "D"],
        &[(0, 1, N), (0, 2, N), (1, 3, N), (2, 3, N)],
    );
    let expected = "A v1.0.0 (/ws/A)\n\
                    ├── B v1.0.0 (/ws/B)\n\
                    │   └── D v1.0.0 (/ws/D)\n\
                    └── C v1.0.0 (/ws/C)\n    \
                    └── D v1.0.0 (/ws/D) (*)\n";
    let (text, status) = plain(&graph, 0, false, &no_rules());
    assert_eq!(text, expected);
    assert!(matches!(status, ReturnStatus::NoViolation));
    let (text, _) = plain(&graph, 0, true, &no_rules());
    assert_eq!(text, expected);
}

#[test]
fn diamond_is_shown_the_same_way_under_rules() {
    let graph = graph_of(
        &["A", "B", "C", "D"],
        &[(0, 1, N), (0, 2, N), (1, 3, N), (2, 3, N)],
    );
    let rules = DependencyRules {
        rules: vec![rule("C", &["D"])],
    };
    let (lines, status) = tree_lines(&graph, 0, false, &rules);
    assert!(matches!(status, ReturnStatus::Violation));
    assert_eq!(lines.len(), 5);
    assert!(matches!(
        &lines[2],
        Line::Package { node: 3, violation: false, repeated: false, .. }
    ));
    assert!(matches!(
        &lines[4],
        Line::Package { node: 3, violation: true, repeated: true, .. }
    ));
}

#[test]
fn repeated_package_is_expanded_again_only_when_asked() {
    let graph = graph_of(
        &["A", "B", "C", "D", "E"],
        &[(0, 1, N), (0, 2, N), (1, 3, N), (2, 3, N), (3, 4, N)],
    );
    let (text, _) = plain(&graph, 0, false, &no_rules());
    assert_eq!(
        text,
        "A v1.0.0 (/ws/A)\n\
         ├── B v1.0.0 (/ws/B)\n\
         │   └── D v1.0.0 (/ws/D)\n\
         │       └── E v1.0.0 (/ws/E)\n\
         └── C v1.0.0 (/ws/C)\n    \
         └── D v1.0.0 (/ws/D) (*)\n"
    );
    let (text, _) = plain(&graph, 0, true, &no_rules());
    assert_eq!(
        text,
        "A v1.0.0 (/ws/A)\n\
         ├── B v1.0.0 (/ws/B)\n\
         │   └── D v1.0.0 (/ws/D)\n\
         │       └── E v1.0.0 (/ws/E)\n\
         └── C v1.0.0 (/ws/C)\n    \
         └── D v1.0.0 (/ws/D) (*)\n        \
         └── E v1.0.0 (/ws/E) (*)\n"
    );
}

#[test]
fn cycle_ends_at_the_repeated_package() {
    let graph = graph_of(&["A", "B"], &[(0, 1, N), (1, 0, N)]);
    let (text, _) = plain(&graph, 0, false, &no_rules());
    assert_eq!(
        text,
        "A v1.0.0 (/ws/A)\n\
         └── B v1.0.0 (/ws/B)\n    \
         └── A v1.0.0 (/ws/A) (*)\n"
    );
}

#[test]
fn siblings_are_ordered_by_identifier() {
    let graph = graph_of(
        &["root", "zeta", "alpha", "mid"],
        &[(0, 1, N), (0, 2, N), (0, 3, N)],
    );
    let (text, _) = plain(&graph, 0, false, &no_rules());
    assert_eq!(
        text,
        "root v1.0.0 (/ws/root)\n\
         ├── alpha v1.0.0 (/ws/alpha)\n\
         ├── mid v1.0.0 (/ws/mid)\n\
         └── zeta v1.0.0 (/ws/zeta)\n"
    );
}

#[test]
fn order_does_not_depend_on_how_the_graph_was_built() {
    let one = graph_of(&["root", "x", "y"], &[(0, 1, N), (0, 2, N)]);
    let other = graph_of(&["root", "x", "y"], &[(0, 2, N), (0, 1, N)]);
    assert_eq!(
        plain(&one, 0, false, &no_rules()).0,
        plain(&other, 0, false, &no_rules()).0
    );
}

#[test]
fn groups_come_in_fixed_order_under_their_headings() {
    let graph = graph_of(
        &["A", "dev", "build", "normal", "inner"],
        &[(0, 1, D), (0, 2, B), (0, 3, N), (3, 4, B)],
    );
    let (text, _) = plain(&graph, 0, false, &no_rules());
    assert_eq!(
        text,
        "A v1.0.0 (/ws/A)\n\
         └── normal v1.0.0 (/ws/normal)\n    \
         [build-dependencies]\n    \
         └── inner v1.0.0 (/ws/inner)\n\
         [build-dependencies]\n\
         └── build v1.0.0 (/ws/build)\n\
         [dev-dependencies]\n\
         └── dev v1.0.0 (/ws/dev)\n"
    );
}

#[test]
fn heading_below_a_package_with_later_siblings_keeps_the_stem() {
    let graph = graph_of(
        &["A", "b", "c", "x"],
        &[(0, 1, N), (0, 2, N), (1, 3, D)],
    );
    let (text, _) = plain(&graph, 0, false, &no_rules());
    assert_eq!(
        text,
        "A v1.0.0 (/ws/A)\n\
         ├── b v1.0.0 (/ws/b)\n\
         │   [dev-dependencies]\n\
         │   └── x v1.0.0 (/ws/x)\n\
         └── c v1.0.0 (/ws/c)\n"
    );
}

#[test]
fn ascii_glyphs_draw_the_same_tree() {
    let graph = graph_of(
        &["A", "b", "c", "x"],
        &[(0, 1, N), (0, 2, N), (1, 3, N)],
    );
    let format = Pattern::new("{p}").unwrap();
    let printed = print_tree(
        &graph,
        0,
        &format,
        &Charset::Ascii.symbols(),
        false,
        &no_rules(),
    );
    assert_eq!(
        printed.text,
        "A v1.0.0 (/ws/A)\n\
         |-- b v1.0.0 (/ws/b)\n\
         |   `-- x v1.0.0 (/ws/x)\n\
         `-- c v1.0.0 (/ws/c)\n"
    );
}

#[test]
fn violation_deep_down_reaches_the_root() {
    // A -> B -> C -> D and A -> E, A -> F; only the edge C -> D is forbidden.
    let graph = graph_of(
        &["A", "B", "C", "D", "E", "F"],
        &[(0, 1, N), (1, 2, N), (2, 3, N), (0, 4, N), (0, 5, D), (1, 5, N)],
    );
    let rules = DependencyRules {
        rules: vec![rule("C", &["D"])],
    };
    for all in [false, true] {
        for (root, expected) in [(0, true), (1, true), (2, true), (3, false), (4, false), (5, false)] {
            let (_, status) = tree_lines(&graph, root, all, &rules);
            assert_eq!(matches!(status, ReturnStatus::Violation), expected);
        }
    }
}

#[test]
fn violation_in_the_last_group_is_not_lost() {
    let graph = graph_of(&["A", "n", "d"], &[(0, 1, N), (0, 2, D)]);
    let rules = DependencyRules {
        rules: vec![rule("A", &["d"])],
    };
    let (_, status) = tree_lines(&graph, 0, false, &rules);
    assert!(matches!(status, ReturnStatus::Violation));
    let rules = DependencyRules {
        rules: vec![rule("A", &["n"])],
    };
    let (_, status) = tree_lines(&graph, 0, false, &rules);
    assert!(matches!(status, ReturnStatus::Violation));
}

#[test]
fn rules_match_by_package_identifier() {
    let mut graph = StableGraph::new();
    let a = graph.add_node(Package::new(
        "app",
        "0.1.0",
        PackageId {
            repr: "path+file:///ws/app#0.1.0".to_string(),
        },
        "/ws/app",
    ));
    let b = graph.add_node(Package::new(
        "infra",
        "0.1.0",
        PackageId {
            repr: "path+file:///ws/infra#0.1.0".to_string(),
        },
        "/ws/infra",
    ));
    graph.add_edge(a, b, DependencyKind::Normal);
    let graph = Graph { graph };

    let by_identifier = DependencyRules {
        rules: vec![DependencyRule::new(
            PackageId {
                repr: "path+file:///ws/app#0.1.0".to_string(),
            },
            vec![PackageId {
                repr: "path+file:///ws/infra#0.1.0".to_string(),
            }],
        )],
    };
    let (lines, status) = tree_lines(&graph, a.index(), false, &by_identifier);
    assert!(matches!(status, ReturnStatus::Violation));
    assert!(matches!(&lines[1], Line::Package { violation: true, .. }));

    let by_name = DependencyRules {
        rules: vec![DependencyRule::new(
            PackageId {
                repr: "app".to_string(),
            },
            vec![PackageId {
                repr: "infra".to_string(),
            }],
        )],
    };
    let (lines, status) = tree_lines(&graph, a.index(), false, &by_name);
    assert!(matches!(status, ReturnStatus::NoViolation));
    assert!(matches!(&lines[1], Line::Package { violation: false, .. }));
}

#[test]
fn two_renders_are_identical() {
    let graph = graph_of(
        &["A", "B", "C", "D"],
        &[(0, 1, N), (0, 2, B), (1, 3, N), (2, 3, D)],
    );
    let rules = DependencyRules {
        rules: vec![rule("B", &["D"])],
    };
    let first = plain(&graph, 0, false, &rules);
    let second = plain(&graph, 0, false, &rules);
    assert_eq!(first.0, second.0);
    assert!(matches!(first.1, ReturnStatus::Violation));
    assert!(matches!(second.1, ReturnStatus::Violation));
}

#[test]
fn lines_can_be_shown_one_by_one() {
    let graph = graph_of(&["A", "B"], &[(0, 1, B)]);
    let format = Pattern::new("{p}").unwrap();
    let (lines, _) = tree_lines(&graph, 0, false, &no_rules());
    let joined: String = lines
        .iter()
        .map(|line| show_line(&graph, line, &format, &utf8()))
        .collect();
    assert_eq!(joined, show_lines(&graph, &lines, &format, &utf8()));
    assert_eq!(
        joined,
        "A v1.0.0 (/ws/A)\n[build-dependencies]\n└── B v1.0.0 (/ws/B)\n"
    );
}

#[test]
fn has_node_tells_nodes_from_other_indices() {
    let graph = graph_of(&["A", "B"], &[]);
    assert!(graph.has_node(0));
    assert!(graph.has_node(1));
    assert!(!graph.has_node(2));
}

#[test]
fn charset_is_read_from_its_name() {
    assert!(matches!("utf8".parse::<Charset>(), Ok(Charset::Utf8)));
    assert!(matches!("ascii".parse::<Charset>(), Ok(Charset::Ascii)));
    assert_eq!("latin1".parse::<Charset>().err(), Some("invalid charset"));
    assert!(matches!(Charset::named("ascii"), Some(Charset::Ascii)));
    assert!(Charset::named("").is_none());
}

#[test]
fn graph_without_cycle_is_found_acyclic() {
    assert!(graph_of(&[], &[]).is_acyclic());
    assert!(graph_of(&["A"], &[]).is_acyclic());
    let diamond = graph_of(
        &["A", "B", "C", "D"],
        &[(1, 3, N), (0, 1, N), (2, 3, B), (0, 2, D)],
    );
    assert!(diamond.is_acyclic());
}

#[test]
fn graph_with_cycle_is_not_found_acyclic() {
    assert!(!graph_of(&["A"], &[(0, 0, N)]).is_acyclic());
    assert!(!graph_of(&["A", "B"], &[(0, 1, N), (1, 0, D)]).is_acyclic());
    let long = graph_of(
        &["A", "B", "C", "D"],
        &[(0, 1, N), (1, 2, N), (2, 3, N), (3, 1, N)],
    );
    assert!(!long.is_acyclic());
}

#[test]
fn graph_with_a_removed_node_is_still_read_by_index() {
    let mut graph = StableGraph::new();
    let a = graph.add_node(package("a"));
    let gone = graph.add_node(package("gone"));
    let b = graph.add_node(package("b"));
    graph.add_edge(a, gone, N);
    graph.add_edge(a, b, N);
    graph.remove_node(gone);
    let graph = Graph { graph };
    assert!(graph.has_node(a.index()));
    assert!(!graph.has_node(gone.index()));
    assert!(graph.has_node(b.index()));
    assert!(graph.is_acyclic());
    let (text, _) = plain(&graph, a.index(), true, &no_rules());
    assert_eq!(text, "a v1.0.0 (/ws/a)\n└── b v1.0.0 (/ws/b)\n");
}

#[test]
fn long_chain_is_found_acyclic_until_it_is_closed() {
    let names = ["n0", "n1", "n2", "n3", "n4", "n5", "n6"];
    let mut edges: Vec<(usize, usize, DependencyKind)> =
        (0..names.len() - 1).map(|i| (i, i + 1, N)).collect();
    assert!(graph_of(&names, &edges).is_acyclic());
    edges.push((6, 3, B));
    assert!(!graph_of(&names, &edges).is_acyclic());
}

#[test]
fn two_edges_to_one_package_show_it_twice() {
    let graph = graph_of(&["A", "B"], &[(0, 1, N), (0, 1, N), (0, 1, D)]);
    let (text, _) = plain(&graph, 0, false, &no_rules());
    assert_eq!(
        text,
        "A v1.0.0 (/ws/A)\n\
         ├── B v1.0.0 (/ws/B)\n\
         └── B v1.0.0 (/ws/B) (*)\n\
         [dev-dependencies]\n\
         └── B v1.0.0 (/ws/B) (*)\n"
    );
}
