//! The rules as a rule file spells them.
//!
//! A rule file holds an optional table `rules` with a list `rule` of
//! entries; each entry names a package and lists what it must not depend on.

use vstd::prelude::*;
use crate::dependency_rule::{id_set, DependencyRule, DependencyRules, RuleView};
use crate::package::PackageId;

verus! {

/// A rule file.
#[derive(Debug)]
pub struct RulesFileSchema {
    pub rules: Option<RulesSchema>,
}

/// The table of rules of a rule file.
#[derive(Debug)]
pub struct RulesSchema {
    pub rule: Vec<RuleSchema>,
}

/// One entry of the table of rules.
#[derive(Debug)]
pub struct RuleSchema {
    pub package: String,
    pub forbidden_dependencies: Vec<String>,
}

/// What a [`RuleSchema`] holds, as mathematical values.
pub ghost struct RuleSchemaView {
    pub package: Seq<char>,
    pub forbidden_dependencies: Seq<Seq<char>>,
}

impl View for RuleSchema {
    type V = RuleSchemaView;

    open spec fn view(&self) -> RuleSchemaView {
        RuleSchemaView {
            package: self.package@,
            forbidden_dependencies: self.forbidden_dependencies@.map_values(|s: String| s@),
        }
    }
}

impl View for RulesSchema {
    type V = Seq<RuleSchemaView>;

    open spec fn view(&self) -> Seq<RuleSchemaView> {
        self.rule@.map_values(|r: RuleSchema| r@)
    }
}

impl View for RulesFileSchema {
    type V = Option<Seq<RuleSchemaView>>;

    open spec fn view(&self) -> Option<Seq<RuleSchemaView>> {
        match self.rules {
            Some(rules) => Some(rules@),
            None => None,
        }
    }
}

/// The rule that an entry stands for: about the entry's package, it forbids
/// the identifiers that the entry lists. How often and in which order they
/// are listed plays no part.
pub open spec fn rule_of(entry: RuleSchemaView) -> RuleView {
    RuleView { package: entry.package, forbidden: entry.forbidden_dependencies.to_set() }
}

/// The rules that a rule file stands for: one for each entry, in the order of
/// the entries, and none where the file has no table of rules.
pub open spec fn rules_of(file: Option<Seq<RuleSchemaView>>) -> Seq<RuleView> {
    match file {
        Some(entries) => entries.map_values(|e: RuleSchemaView| rule_of(e)),
        None => Seq::empty(),
    }
}

/// Two entries that are about the same package and list the same identifiers,
/// however often and in whatever order, stand for the same rule.
pub proof fn lemma_rule_of_ignores_order_and_repeats(a: RuleSchemaView, b: RuleSchemaView)
    requires
        a.package == b.package,
        forall|id: Seq<char>|
            a.forbidden_dependencies.contains(id) <==> b.forbidden_dependencies.contains(id),
    ensures
        rule_of(a) == rule_of(b),
{
    assert(a.forbidden_dependencies.to_set() =~= b.forbidden_dependencies.to_set());
}

/// A rule file without a table of rules, or with an empty one, stands for no
/// rules.
pub proof fn lemma_no_entries_no_rules(file: Option<Seq<RuleSchemaView>>)
    requires
        file matches Some(entries) ==> entries.len() == 0,
    ensures
        rules_of(file).len() == 0,
{
}

/// The identifiers spelled by a list of strings.
fn ids_of(names: &Vec<String>) -> (ids: Vec<PackageId>)
    ensures
        ids@.len() == names@.len(),
        forall|i: int| 0 <= i < ids@.len() ==> (#[trigger] ids@[i])@ == names@[i]@,
        id_set(ids@) == names@.map_values(|s: String| s@).to_set(),
{
    let mut ids: Vec<PackageId> = Vec::new();
    let mut i: usize = 0;
    while i < names.len()
        invariant
            i <= names@.len(),
            ids@.len() == i,
            forall|k: int| 0 <= k < i ==> (#[trigger] ids@[k])@ == names@[k]@,
        decreases names@.len() - i,
    {
        ids.push(PackageId::new(names[i].as_str()));
        i += 1;
    }
    proof {
        let texts = names@.map_values(|s: String| s@);
        assert forall|t: Seq<char>| id_set(ids@).contains(t) <==> texts.to_set().contains(t) by {
            if id_set(ids@).contains(t) {
                let k = choose|k: int| 0 <= k < ids@.len() && (#[trigger] ids@[k])@ == t;
                assert(texts[k] == t);
                assert(texts.contains(t));
            }
            if texts.to_set().contains(t) {
                assert(texts.contains(t));
                let k = choose|k: int| 0 <= k < texts.len() && texts[k] == t;
                assert(ids@[k]@ == t);
            }
        }
        assert(id_set(ids@) =~= texts.to_set());
    }
    ids
}

impl DependencyRules {
    /// The rules that a rule file stands for.
    pub fn from_schema(rules_file: RulesFileSchema) -> (rules: DependencyRules)
        ensures
            rules@ == rules_of(rules_file@),
    {
        match rules_file.rules {
            Some(table) => {
                let mut rules: Vec<DependencyRule> = Vec::new();
                let mut i: usize = 0;
                while i < table.rule.len()
                    invariant
                        i <= table.rule@.len(),
                        rules@.len() == i,
                        forall|k: int|
                            0 <= k < i ==> (#[trigger] rules@[k])@ == rule_of(table.rule@[k]@),
                    decreases table.rule@.len() - i,
                {
                    let entry = &table.rule[i];
                    let rule = DependencyRule::new(
                        PackageId::new(entry.package.as_str()),
                        ids_of(&entry.forbidden_dependencies),
                    );
                    rules.push(rule);
                    i += 1;
                }
                let rules = DependencyRules { rules };
                proof {
                    assert(rules@ =~= rules_of(rules_file@));
                }
                rules
            },
            None => {
                let rules = DependencyRules { rules: Vec::new() };
                proof {
                    assert(rules@ =~= rules_of(rules_file@));
                }
                rules
            },
        }
    }
}

impl vstd::std_specs::convert::FromSpecImpl<RulesFileSchema> for DependencyRules {
    /// Nothing is stated through `from_spec`: what `from` gives is stated in
    /// its own `ensures`, over the views.
    open spec fn obeys_from_spec() -> bool {
        false
    }

    open spec fn from_spec(rules_file: RulesFileSchema) -> DependencyRules {
        arbitrary()
    }
}

impl From<RulesFileSchema> for DependencyRules {
    fn from(rules_file: RulesFileSchema) -> (rules: DependencyRules)
        ensures
            rules@ == rules_of(rules_file@),
    {
        DependencyRules::from_schema(rules_file)
    }
}

impl RulesFileSchema {
    /// The rule file that spells `rules`: one entry for each rule, in order,
    /// which lists each forbidden identifier once. Read back, it gives the
    /// same rules.
    pub fn from_rules(rules: &DependencyRules) -> (file: RulesFileSchema)
        ensures
            rules_of(file@) == rules@,
            file@ matches Some(entries) && entries.len() == rules@.len() && forall|i: int|
                0 <= i < entries.len() ==> (#[trigger] entries[i]).forbidden_dependencies.no_duplicates(),
    {
        let mut entries: Vec<RuleSchema> = Vec::new();
        let mut i: usize = 0;
        while i < rules.rules.len()
            invariant
                i <= rules.rules@.len(),
                entries@.len() == i,
                forall|k: int| 0 <= k < i ==> rule_of((#[trigger] entries@[k])@) == rules.rules@[k]@,
                forall|k: int|
                    0 <= k < i ==> (#[trigger] entries@[k])@.forbidden_dependencies.no_duplicates(),
            decreases rules.rules@.len() - i,
        {
            let rule = &rules.rules[i];
            let ids = rule.forbidden_dependencies();
            let mut names: Vec<String> = Vec::new();
            let mut j: usize = 0;
            while j < ids.len()
                invariant
                    j <= ids@.len(),
                    names@.len() == j,
                    forall|k: int| 0 <= k < j ==> (#[trigger] names@[k])@ == ids@[k]@,
                decreases ids@.len() - j,
            {
                names.push(ids[j].repr.clone());
                j += 1;
            }
            let entry = RuleSchema { package: rule.package().repr.clone(), forbidden_dependencies: names };
            proof {
                let texts = entry@.forbidden_dependencies;
                assert forall|t: Seq<char>| texts.to_set().contains(t) <==> id_set(ids@).contains(
                    t,
                ) by {
                    if texts.to_set().contains(t) {
                        assert(texts.contains(t));
                        let k = choose|k: int| 0 <= k < texts.len() && texts[k] == t;
                        assert(ids@[k]@ == t);
                    }
                    if id_set(ids@).contains(t) {
                        let k = choose|k: int| 0 <= k < ids@.len() && (#[trigger] ids@[k])@ == t;
                        assert(texts[k] == t);
                        assert(texts.contains(t));
                    }
                }
                assert(texts.to_set() =~= id_set(ids@));
                assert forall|a: int, b: int| 0 <= a < texts.len() && 0 <= b < texts.len() && a
                    != b implies texts[a] != texts[b] by {
                    assert(texts[a] == ids@[a]@ && texts[b] == ids@[b]@);
                }
            }
            entries.push(entry);
            i += 1;
        }
        let file = RulesFileSchema { rules: Some(RulesSchema { rule: entries }) };
        proof {
            assert(rules_of(file@) =~= rules@);
        }
        file
    }
}

} // verus!
