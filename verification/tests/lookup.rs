use check_deprule::dependency_graph::lookup::{find_package, select_package, LookupError};
use check_deprule::dependency_graph::tree::print;
use check_deprule::dependency_graph::Graph;
use check_deprule::dependency_rule::{DependencyRule, DependencyRules};
use check_deprule::package::{DependencyKind, Package, PackageId};
use check_deprule::ReturnStatus;
use colored::Colorize;
use petgraph::stable_graph::StableGraph;

fn package(name: &str, version: &str) -> Package {
    Package::new(
        name,
        version,
        PackageId {
            repr: format!("{} {}", name, version),
        },
        &format!("/ws/{}", name),
    )
}

fn workspace() -> Graph {
    let mut graph = StableGraph::new();
    let app = graph.add_node(package("app", "0.1.0"));
    let old = graph.add_node(package("dup", "1.0.0"));
    let new = graph.add_node(package("dup", "2.0.0-rc.1"));
    let lib = graph.add_node(package("lib", "0.2.0"));
    graph.add_edge(app, old, DependencyKind::Normal);
    graph.add_edge(app, lib, DependencyKind::Normal);
    graph.add_edge(lib, new, DependencyKind::Normal);
    Graph { graph }
}

#[test]
fn name_that_matches_one_package_is_found() {
    let graph = workspace();
    assert!(matches!(find_package("app", &graph), Ok(0)));
    assert!(matches!(find_package("lib", &graph), Ok(3)));
}

#[test]
fn name_that_matches_nothing_is_not_found() {
    let graph = workspace();
    match find_package("missing", &graph) {
        Err(LookupError::NotFound { spec }) => assert_eq!(spec, "missing"),
        other => panic!("unexpected: {:?}", other),
    }
}

#[test]
fn name_that_matches_several_is_ambiguous() {
    let graph = workspace();
    match find_package("dup", &graph) {
        Err(LookupError::Ambiguous { spec, candidates }) => {
            assert_eq!(spec, "dup");
            assert_eq!(candidates, vec!["dup:1.0.0", "dup:2.0.0-rc.1"]);
        }
        other => panic!("unexpected: {:?}", other),
    }
}

#[test]
fn version_tells_packages_of_one_name_apart() {
    let graph = workspace();
    assert!(matches!(find_package("dup:1.0.0", &graph), Ok(1)));
    assert!(matches!(find_package("dup:2.0.0-rc.1", &graph), Ok(2)));
    assert!(matches!(find_package("dup:1.0.0:ignored", &graph), Ok(1)));
}

#[test]
fn version_that_no_package_has_is_not_found() {
    let graph = workspace();
    match find_package("dup:3.0.0", &graph) {
        Err(LookupError::NotFound { spec }) => assert_eq!(spec, "dup:3.0.0"),
        other => panic!("unexpected: {:?}", other),
    }
}

#[test]
fn version_that_is_none_is_rejected() {
    let graph = workspace();
    for spec in ["dup:one", "dup:", "dup:1.0", "dup:01.0.0"] {
        match find_package(spec, &graph) {
            Err(LookupError::InvalidVersion { spec: asked, cause }) => {
                assert_eq!(asked, spec);
                assert!(!cause.to_string().is_empty());
            }
            other => panic!("unexpected: {:?}", other),
        }
    }
}

#[test]
fn select_compares_the_version_as_it_is_given() {
    let graph = workspace();
    assert!(matches!(select_package(&graph, "x", "dup", Some("1.0.0")), Ok(1)));
    assert!(matches!(
        select_package(&graph, "x", "dup", Some("1.0")),
        Err(LookupError::NotFound { .. })
    ));
    assert!(matches!(
        select_package(&graph, "x", "dup", None),
        Err(LookupError::Ambiguous { .. })
    ));
}

#[test]
fn print_shows_each_member_in_turn() {
    let graph = workspace();
    let members = vec!["lib".to_string(), "app".to_string()];
    let report = print(&graph, &members, &DependencyRules { rules: Vec::new() }, true);
    assert!(matches!(report.outcome, Ok(ReturnStatus::NoViolation)));
    assert_eq!(
        report.text,
        "lib v0.2.0 (/ws/lib)\n\
         └── dup v2.0.0-rc.1 (/ws/dup)\n\
         app v0.1.0 (/ws/app)\n\
         ├── dup v1.0.0 (/ws/dup)\n\
         └── lib v0.2.0 (/ws/lib)\n    \
         └── dup v2.0.0-rc.1 (/ws/dup)\n"
    );
}

#[test]
fn print_reports_a_violation_of_any_member() {
    let graph = workspace();
    let members = vec!["lib".to_string(), "app".to_string()];
    let rules = DependencyRules {
        rules: vec![DependencyRule::new(
            PackageId {
                repr: "app 0.1.0".to_string(),
            },
            vec![PackageId {
                repr: "lib 0.2.0".to_string(),
            }],
        )],
    };
    let report = print(&graph, &members, &rules, true);
    assert!(matches!(report.outcome, Ok(ReturnStatus::Violation)));
    assert_eq!(
        report.text,
        format!(
            "lib v0.2.0 (/ws/lib)\n\
             └── dup v2.0.0-rc.1 (/ws/dup)\n\
             app v0.1.0 (/ws/app)\n\
             ├── dup v1.0.0 (/ws/dup)\n\
             └── {} (/ws/lib)\n    \
             └── dup v2.0.0-rc.1 (/ws/dup)\n",
            "lib v0.2.0".red()
        )
    );
}

#[test]
fn print_stops_at_the_first_member_that_is_not_found() {
    let graph = workspace();
    let members = vec!["lib".to_string(), "dup".to_string(), "app".to_string()];
    let report = print(&graph, &members, &DependencyRules { rules: Vec::new() }, true);
    assert!(matches!(
        report.outcome,
        Err(LookupError::Ambiguous { .. })
    ));
    assert_eq!(
        report.text,
        "lib v0.2.0 (/ws/lib)\n└── dup v2.0.0-rc.1 (/ws/dup)\n"
    );
}

#[test]
fn print_of_no_members_is_empty() {
    let graph = workspace();
    let report = print(&graph, &Vec::new(), &DependencyRules { rules: Vec::new() }, false);
    assert!(matches!(report.outcome, Ok(ReturnStatus::NoViolation)));
    assert_eq!(report.text, "");
}

#[test]
fn lookup_errors_say_what_is_wrong() {
    let graph = workspace();
    assert_eq!(
        find_package("missing", &graph).unwrap_err().message(),
        "no crates found for package `missing`"
    );
    assert_eq!(
        find_package("dup", &graph).unwrap_err().message(),
        "multiple crates found for package `dup`: dup:1.0.0, dup:2.0.0-rc.1"
    );
    assert_eq!(
        find_package("dup:x", &graph).unwrap_err().message(),
        "error parsing package version"
    );
}

#[test]
fn package_is_read_by_the_index_of_its_node() {
    let graph = workspace();
    assert_eq!(graph.package_at(3).unwrap().name, "lib");
    assert!(graph.package_at(4).is_none());
}
