//! The rules: which package must not depend on which.

use vstd::prelude::*;
use crate::package::PackageId;
use crate::text::str_eq;

pub mod rules_parser;

verus! {

/// What one rule says: the package it is about, named by its identifier, and
/// the identifiers that package must not depend on.
pub ghost struct RuleView {
    pub package: Seq<char>,
    pub forbidden: Set<Seq<char>>,
}

/// The identifiers that a list holds, as a set.
pub open spec fn id_set(ids: Seq<PackageId>) -> Set<Seq<char>> {
    Set::new(|t: Seq<char>| exists|i: int| 0 <= i < ids.len() && #[trigger] ids[i]@ == t)
}

/// Whether no identifier occurs twice in the list.
pub open spec fn distinct_ids(ids: Seq<PackageId>) -> bool {
    forall|i: int, j: int| 0 <= i < j < ids.len() ==> #[trigger] ids[i]@ != #[trigger] ids[j]@
}

/// One rule: `package` must not depend on any of the forbidden identifiers.
///
/// An edge of the graph is held against a rule by the identifiers of the two
/// packages it joins: it breaks the rule where the identifier of the package
/// that depends is `package` and the identifier of the package depended on
/// is one of the forbidden ones.
///
/// The forbidden identifiers form a set: the list that holds them never holds
/// one twice, and its order carries no meaning.
#[derive(Debug)]
pub struct DependencyRule {
    pub(crate) package: PackageId,
    pub(crate) forbidden_dependencies: Vec<PackageId>,
}

impl View for DependencyRule {
    type V = RuleView;

    closed spec fn view(&self) -> RuleView {
        RuleView { package: self.package@, forbidden: id_set(self.forbidden_dependencies@) }
    }
}

/// Whether `ids` holds the identifier `id`.
pub fn contains_id(ids: &Vec<PackageId>, id: &str) -> (r: bool)
    ensures
        r == id_set(ids@).contains(id@),
{
    let mut i: usize = 0;
    while i < ids.len()
        invariant
            i <= ids.len(),
            forall|k: int| 0 <= k < i ==> #[trigger] ids@[k]@ != id@,
        decreases ids.len() - i,
    {
        if str_eq(ids[i].repr.as_str(), id) {
            assert(ids@[i as int]@ == id@);
            return true;
        }
        i += 1;
    }
    false
}

/// Whether every identifier of `a` is also in `b`.
fn ids_within(a: &Vec<PackageId>, b: &Vec<PackageId>) -> (r: bool)
    ensures
        r == id_set(a@).subset_of(id_set(b@)),
{
    let mut i: usize = 0;
    while i < a.len()
        invariant
            i <= a.len(),
            forall|k: int| 0 <= k < i ==> id_set(b@).contains(#[trigger] a@[k]@),
        decreases a.len() - i,
    {
        if !contains_id(b, a[i].repr.as_str()) {
            assert(id_set(a@).contains(a@[i as int]@));
            return false;
        }
        i += 1;
    }
    true
}

impl DependencyRule {
    #[verifier::type_invariant]
    closed spec fn well_formed(&self) -> bool {
        distinct_ids(self.forbidden_dependencies@)
    }

    /// The rule that forbids `package` to depend on any of
    /// `forbidden_dependencies`. An identifier listed more than once counts
    /// once.
    pub fn new(package: PackageId, forbidden_dependencies: Vec<PackageId>) -> (rule: Self)
        ensures
            rule@.package == package@,
            rule@.forbidden == id_set(forbidden_dependencies@),
    {
        let mut kept: Vec<PackageId> = Vec::new();
        let mut i: usize = 0;
        while i < forbidden_dependencies.len()
            invariant
                i <= forbidden_dependencies.len(),
                distinct_ids(kept@),
                forall|t: Seq<char>|
                    id_set(kept@).contains(t) <==> exists|k: int|
                        0 <= k < i && #[trigger] forbidden_dependencies@[k]@ == t,
            decreases forbidden_dependencies.len() - i,
        {
            let id = &forbidden_dependencies[i];
            if !contains_id(&kept, id.repr.as_str()) {
                let ghost before = kept@;
                kept.push(PackageId::new(id.repr.as_str()));
                proof {
                    let last = kept@.len() - 1;
                    assert(kept@[last]@ == id@);
                    assert forall|t: Seq<char>| id_set(kept@).contains(t) implies exists|k: int|
                        0 <= k < i + 1 && #[trigger] forbidden_dependencies@[k]@ == t by {
                        let j = choose|j: int| 0 <= j < kept@.len() && #[trigger] kept@[j]@ == t;
                        if j < last {
                            assert(before[j]@ == t);
                            assert(id_set(before).contains(t));
                        } else {
                            assert(forbidden_dependencies@[i as int]@ == t);
                        }
                    }
                    assert forall|t: Seq<char>|
                        (exists|k: int| 0 <= k < i + 1 && #[trigger] forbidden_dependencies@[k]@ == t)
                            implies id_set(kept@).contains(t) by {
                        let k = choose|k: int|
                            0 <= k < i + 1 && #[trigger] forbidden_dependencies@[k]@ == t;
                        if k < i {
                            assert(id_set(before).contains(t));
                            let j = choose|j: int| 0 <= j < before.len() && #[trigger] before[j]@ == t;
                            assert(kept@[j]@ == t);
                        } else {
                            assert(kept@[last]@ == t);
                        }
                    }
                    assert forall|a: int, b: int| 0 <= a < b < kept@.len() implies #[trigger] kept@[a]@
                        != #[trigger] kept@[b]@ by {
                        if b == last {
                            assert(before[a]@ == kept@[a]@);
                            assert(id_set(before).contains(before[a]@));
                        } else {
                            assert(before[a]@ == kept@[a]@ && before[b]@ == kept@[b]@);
                        }
                    }
                }
            } else {
                proof {
                    assert forall|t: Seq<char>|
                        (exists|k: int| 0 <= k < i + 1 && #[trigger] forbidden_dependencies@[k]@ == t)
                            implies id_set(kept@).contains(t) by {
                        let k = choose|k: int|
                            0 <= k < i + 1 && #[trigger] forbidden_dependencies@[k]@ == t;
                        if k == i {
                            assert(id_set(kept@).contains(id@));
                        }
                    }
                }
            }
            i += 1;
        }
        proof {
            assert(id_set(kept@) =~= id_set(forbidden_dependencies@));
        }
        DependencyRule { package, forbidden_dependencies: kept }
    }

    /// The package that the rule is about.
    pub fn package(&self) -> (id: &PackageId)
        ensures
            id@ == self@.package,
    {
        &self.package
    }

    /// The forbidden identifiers, each of them once.
    pub fn forbidden_dependencies(&self) -> (ids: &Vec<PackageId>)
        ensures
            id_set(ids@) == self@.forbidden,
            distinct_ids(ids@),
    {
        proof {
            use_type_invariant(self);
        }
        &self.forbidden_dependencies
    }

    /// Whether the rule forbids a dependency on `id`.
    pub fn forbids(&self, id: &str) -> (r: bool)
        ensures
            r == self@.forbidden.contains(id@),
    {
        contains_id(&self.forbidden_dependencies, id)
    }
}

impl vstd::std_specs::cmp::PartialEqSpecImpl for DependencyRule {
    open spec fn obeys_eq_spec() -> bool {
        true
    }

    /// Two rules are equal when they are about the same package and forbid
    /// the same set of identifiers.
    open spec fn eq_spec(&self, other: &DependencyRule) -> bool {
        self@ == other@
    }
}

impl PartialEq for DependencyRule {
    fn eq(&self, other: &DependencyRule) -> (r: bool) {
        let same = self.package.repr == other.package.repr && ids_within(
            &self.forbidden_dependencies,
            &other.forbidden_dependencies,
        ) && ids_within(&other.forbidden_dependencies, &self.forbidden_dependencies);
        proof {
            if same {
                assert(self@.forbidden =~= other@.forbidden);
            }
        }
        same
    }
}

/// Whether some rule of `rules` forbids `owner` to depend on `dependency`.
pub open spec fn rules_forbid(rules: Seq<RuleView>, owner: Seq<char>, dependency: Seq<char>) -> bool {
    exists|i: int|
        0 <= i < rules.len() && (#[trigger] rules[i]).package == owner
            && rules[i].forbidden.contains(dependency)
}

/// The rules of a workspace, in the order in which they were written down.
///
/// The order plays no part in matching: every rule is checked.
#[derive(Debug)]
pub struct DependencyRules {
    pub rules: Vec<DependencyRule>,
}

impl View for DependencyRules {
    type V = Seq<RuleView>;

    open spec fn view(&self) -> Seq<RuleView> {
        self.rules@.map_values(|r: DependencyRule| r@)
    }
}

impl DependencyRules {
    /// Whether some rule forbids `owner` to depend on `dependency`.
    pub fn forbid(&self, owner: &str, dependency: &str) -> (r: bool)
        ensures
            r == rules_forbid(self@, owner@, dependency@),
    {
        let mut i: usize = 0;
        while i < self.rules.len()
            invariant
                i <= self.rules.len(),
                forall|k: int|
                    0 <= k < i ==> !((#[trigger] self@[k]).package == owner@
                        && self@[k].forbidden.contains(dependency@)),
            decreases self.rules.len() - i,
        {
            let rule = &self.rules[i];
            assert(self@[i as int] == rule@);
            if str_eq(rule.package().repr.as_str(), owner) && rule.forbids(dependency) {
                return true;
            }
            i += 1;
        }
        false
    }
}

impl vstd::std_specs::cmp::PartialEqSpecImpl for DependencyRules {
    open spec fn obeys_eq_spec() -> bool {
        true
    }

    /// Two rule sets are equal when they hold equal rules in the same order.
    open spec fn eq_spec(&self, other: &DependencyRules) -> bool {
        self@ == other@
    }
}

impl PartialEq for DependencyRules {
    fn eq(&self, other: &DependencyRules) -> (r: bool) {
        if self.rules.len() != other.rules.len() {
            assert(self@.len() != other@.len());
            return false;
        }
        let mut i: usize = 0;
        while i < self.rules.len()
            invariant
                self.rules.len() == other.rules.len(),
                i <= self.rules.len(),
                forall|k: int| 0 <= k < i ==> self@[k] == other@[k],
            decreases self.rules.len() - i,
        {
            if !(self.rules[i] == other.rules[i]) {
                assert(self@[i as int] == self.rules@[i as int]@);
                assert(other@[i as int] == other.rules@[i as int]@);
                return false;
            }
            assert(self@[i as int] == self.rules@[i as int]@);
            assert(other@[i as int] == other.rules@[i as int]@);
            i += 1;
        }
        proof {
            assert(self@ =~= other@);
        }
        true
    }
}

} // verus!
