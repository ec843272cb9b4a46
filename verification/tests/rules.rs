use check_deprule::dependency_rule::rules_parser::{RuleSchema, RulesFileSchema, RulesSchema};
use check_deprule::dependency_rule::{DependencyRule, DependencyRules};
use check_deprule::package::PackageId;

fn id(text: &str) -> PackageId {
    PackageId {
        repr: text.to_string(),
    }
}

fn one_rule_file() -> RulesFileSchema {
    RulesFileSchema {
        rules: Some(RulesSchema {
            rule: vec![RuleSchema {
                package: "package1".to_string(),
                forbidden_dependencies: vec!["package2".to_string(), "package3".to_string()],
            }],
        }),
    }
}

#[test]
fn test_into_rules_file_schema_to_dependency_rules() {
    let rules_file = one_rule_file();
    let expected = DependencyRules {
        rules: vec![DependencyRule::new(
            id("package1"),
            vec![id("package2"), id("package3")],
        )],
    };

    let dependency_rules: DependencyRules = rules_file.into();
    assert_eq!(dependency_rules, expected);
}

#[test]
fn test_from_rules_file_schema_to_dependency_rules() {
    let rules_file = one_rule_file();
    let expected = DependencyRules {
        rules: vec![DependencyRule::new(
            id("package1"),
            vec![id("package2"), id("package3")],
        )],
    };

    let dependency_rules = DependencyRules::from(rules_file);
    assert_eq!(dependency_rules, expected);
}

#[test]
fn file_without_a_table_of_rules_gives_no_rules() {
    let rules = DependencyRules::from(RulesFileSchema { rules: None });
    assert!(rules.rules.is_empty());
    assert_eq!(rules, DependencyRules { rules: Vec::new() });
}

#[test]
fn file_with_an_empty_table_of_rules_gives_no_rules() {
    let rules = DependencyRules::from(RulesFileSchema {
        rules: Some(RulesSchema { rule: Vec::new() }),
    });
    assert!(rules.rules.is_empty());
    assert!(!rules.forbid("package1", "package2"));
}

#[test]
fn forbidden_identifiers_listed_twice_count_once() {
    let rules = DependencyRules::from(RulesFileSchema {
        rules: Some(RulesSchema {
            rule: vec![RuleSchema {
                package: "package1".to_string(),
                forbidden_dependencies: vec![
                    "package3".to_string(),
                    "package2".to_string(),
                    "package3".to_string(),
                ],
            }],
        }),
    });
    let expected = DependencyRules {
        rules: vec![DependencyRule::new(
            id("package1"),
            vec![id("package2"), id("package3")],
        )],
    };
    assert_eq!(rules, expected);
    let listed: Vec<&str> = rules.rules[0]
        .forbidden_dependencies()
        .iter()
        .map(|id| id.repr.as_str())
        .collect();
    assert_eq!(listed, vec!["package3", "package2"]);
    assert_eq!(rules.rules[0].package().repr, "package1");
}

#[test]
fn rules_differ_by_owner_by_forbidden_set_and_by_order_of_rules() {
    let one = DependencyRule::new(id("a"), vec![id("x"), id("y")]);
    assert!(one == DependencyRule::new(id("a"), vec![id("y"), id("x"), id("y")]));
    assert!(one != DependencyRule::new(id("b"), vec![id("x"), id("y")]));
    assert!(one != DependencyRule::new(id("a"), vec![id("x")]));
    assert!(one != DependencyRule::new(id("a"), vec![id("x"), id("y"), id("z")]));

    let ab = DependencyRules {
        rules: vec![
            DependencyRule::new(id("a"), vec![id("x")]),
            DependencyRule::new(id("b"), vec![id("y")]),
        ],
    };
    let ba = DependencyRules {
        rules: vec![
            DependencyRule::new(id("b"), vec![id("y")]),
            DependencyRule::new(id("a"), vec![id("x")]),
        ],
    };
    assert!(ab != ba);
    assert!(ab != DependencyRules { rules: Vec::new() });
}

#[test]
fn rule_forbids_what_it_lists_and_nothing_else() {
    let rule = DependencyRule::new(id("a"), vec![id("x"), id("y")]);
    assert!(rule.forbids("x"));
    assert!(rule.forbids("y"));
    assert!(!rule.forbids("a"));
    assert!(!rule.forbids(""));
}

#[test]
fn every_rule_is_checked() {
    let rules = DependencyRules {
        rules: vec![
            DependencyRule::new(id("a"), vec![id("x")]),
            DependencyRule::new(id("b"), vec![id("y")]),
            DependencyRule::new(id("a"), vec![id("z")]),
        ],
    };
    assert!(rules.forbid("a", "x"));
    assert!(rules.forbid("a", "z"));
    assert!(rules.forbid("b", "y"));
    assert!(!rules.forbid("a", "y"));
    assert!(!rules.forbid("x", "a"));
}

#[test]
fn rules_written_out_and_read_back_are_the_same() {
    let original = DependencyRules::from(RulesFileSchema {
        rules: Some(RulesSchema {
            rule: vec![
                RuleSchema {
                    package: "package1".to_string(),
                    forbidden_dependencies: vec![
                        "package2".to_string(),
                        "package3".to_string(),
                        "package2".to_string(),
                    ],
                },
                RuleSchema {
                    package: "package2".to_string(),
                    forbidden_dependencies: vec!["package1".to_string()],
                },
                RuleSchema {
                    package: "package3".to_string(),
                    forbidden_dependencies: Vec::new(),
                },
            ],
        }),
    });
    let written = RulesFileSchema::from_rules(&original);
    let entries = &written.rules.as_ref().unwrap().rule;
    assert_eq!(entries.len(), 3);
    assert_eq!(entries[0].package, "package1");
    assert_eq!(entries[0].forbidden_dependencies, vec!["package2", "package3"]);
    assert_eq!(entries[1].forbidden_dependencies, vec!["package1"]);
    assert!(entries[2].forbidden_dependencies.is_empty());

    let read_back = DependencyRules::from(written);
    assert_eq!(read_back, original);
}
