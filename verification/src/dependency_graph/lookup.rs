//! Finding the package that a name stands for.
//!
//! A package is asked for by its name, or by `name:version` where several
//! versions of it are in the graph.

use vstd::prelude::*;
use crate::dependency_graph::{Graph, GraphView};
use crate::package::PackageView;
use crate::text::{chars_of, str_eq};

verus! {

/// The error of `semver`, of which nothing but its name is known here.
#[verifier::external_type_specification]
#[verifier::external_body]
pub struct ExSemverError(semver::Error);

/// The text of the semantic version that `text` spells, as that version is
/// printed, or `None` where `text` spells no semantic version.
pub uninterp spec fn semver_text(text: Seq<char>) -> Option<Seq<char>>;

/// Calls `semver::Version::parse` and prints the version that it gives. Two
/// versions are equal exactly when they are printed alike, since the printed
/// form shows every part of a version.
#[verifier::external_body]
fn parse_version(text: &str) -> (r: Result<String, semver::Error>)
    ensures
        match r {
            Ok(version) => semver_text(text@) == Some(version@),
            Err(_) => semver_text(text@) is None,
        },
{
    semver::Version::parse(text).map(|version| version.to_string())
}

/// Why no package was found for a name.
#[derive(Debug)]
pub enum LookupError {
    /// What follows the colon is no semantic version; `cause` says why.
    InvalidVersion { spec: String, cause: semver::Error },
    /// No package of the graph has the name, or none has it in the version
    /// asked for.
    NotFound { spec: String },
    /// Several packages of the graph match. `candidates` names each of them
    /// as `name:version`, in the order of their place in the graph.
    Ambiguous { spec: String, candidates: Vec<String> },
}

/// The texts of a list, with `, ` between one and the next.
pub open spec fn listed(items: Seq<String>) -> Seq<char>
    decreases items.len(),
{
    if items.len() == 0 {
        Seq::empty()
    } else if items.len() == 1 {
        items[0]@
    } else {
        listed(items.drop_last()) + seq![',', ' '] + items.last()@
    }
}

/// What the error says.
pub open spec fn lookup_message(error: LookupError) -> Seq<char> {
    match error {
        LookupError::InvalidVersion { .. } => "error parsing package version"@,
        LookupError::NotFound { spec } => "no crates found for package `"@ + spec@ + seq!['`'],
        LookupError::Ambiguous { spec, candidates } => "multiple crates found for package `"@ + spec@
            + seq!['`', ':', ' '] + listed(candidates@),
    }
}

impl LookupError {
    /// What the error says, for a person to read.
    pub fn message(&self) -> (text: String)
        ensures
            text@ == lookup_message(*self),
    {
        proof {
            reveal_strlit("`");
            reveal_strlit("`: ");
            reveal_strlit(", ");
            assert("`"@ =~= seq!['`']);
            assert("`: "@ =~= seq!['`', ':', ' ']);
            assert(", "@ =~= seq![',', ' ']);
        }
        match self {
            LookupError::InvalidVersion { .. } => "error parsing package version".to_owned(),
            LookupError::NotFound { spec } => {
                let mut text = "no crates found for package `".to_owned();
                text.append(spec.as_str());
                text.append("`");
                text
            },
            LookupError::Ambiguous { spec, candidates } => {
                let mut text = "multiple crates found for package `".to_owned();
                text.append(spec.as_str());
                text.append("`: ");
                let ghost head = text@;
                let mut i: usize = 0;
                proof {
                    assert(candidates@.subrange(0, 0) =~= Seq::<String>::empty());
                    assert(head + Seq::<char>::empty() =~= head);
                }
                while i < candidates.len()
                    invariant
                        i <= candidates@.len(),
                        ", "@ == seq![',', ' '],
                        text@ == head + listed(candidates@.subrange(0, i as int)),
                    decreases candidates@.len() - i,
                {
                    let ghost so_far = listed(candidates@.subrange(0, i as int));
                    if i > 0 {
                        text.append(", ");
                    }
                    text.append(candidates[i].as_str());
                    proof {
                        let next = candidates@.subrange(0, i + 1);
                        assert(next.drop_last() =~= candidates@.subrange(0, i as int));
                        assert(next.last() == candidates@[i as int]);
                        if i == 0 {
                            assert(next[0] == candidates@[0]);
                            assert(so_far =~= Seq::<char>::empty());
                            assert(text@ =~= head + candidates@[0]@);
                        } else {
                            let added = candidates@[i as int]@;
                            assert(text@ =~= head + (so_far + seq![',', ' '] + added));
                        }
                    }
                    i += 1;
                }
                proof {
                    assert(candidates@.subrange(0, i as int) =~= candidates@);
                }
                text
            },
        }
    }
}

/// The first place from `from` on that holds a colon, or the end of `s`.
pub open spec fn colon_from(s: Seq<char>, from: int) -> int
    decreases s.len() - from,
{
    if from >= s.len() || s[from] == ':' {
        from
    } else {
        colon_from(s, from + 1)
    }
}

/// `colon_from` lies between `from` and the end of `s`.
pub proof fn lemma_colon_from_bounds(s: Seq<char>, from: int)
    requires
        0 <= from <= s.len(),
    ensures
        from <= colon_from(s, from) <= s.len(),
    decreases s.len() - from,
{
    if from < s.len() && s[from] != ':' {
        lemma_colon_from_bounds(s, from + 1);
    }
}

/// The name that `spec` asks for: what stands before its first colon.
pub open spec fn spec_name(spec: Seq<char>) -> Seq<char> {
    spec.subrange(0, colon_from(spec, 0))
}

/// The version that `spec` asks for, as it is written: what stands between
/// its first colon and its second, or its end, if it has a colon at all.
pub open spec fn spec_version(spec: Seq<char>) -> Option<Seq<char>> {
    let colon = colon_from(spec, 0);
    if colon < spec.len() {
        Some(spec.subrange(colon + 1, colon_from(spec, colon + 1)))
    } else {
        None
    }
}

/// Whether a package has the name and, where one is asked for, the version.
pub open spec fn matches(p: PackageView, name: Seq<char>, version: Option<Seq<char>>) -> bool {
    p.name == name && (version matches Some(v) ==> p.version == v)
}

/// The nodes of the graph whose package matches.
pub open spec fn matching(g: GraphView, name: Seq<char>, version: Option<Seq<char>>) -> Set<usize> {
    Set::new(|n: usize| g.has(n) && matches(g.packages[n], name, version))
}

/// How a package is named among several: `name:version`.
pub open spec fn qualified(p: PackageView) -> Seq<char> {
    p.name + seq![':'] + p.version
}

/// Whether `found` lists the matching nodes, each once, in ascending order of
/// their index.
pub open spec fn lists_matching(
    g: GraphView,
    name: Seq<char>,
    version: Option<Seq<char>>,
    found: Seq<usize>,
) -> bool {
    &&& forall|i: int, j: int| 0 <= i < j < found.len() ==> found[i] < found[j]
    &&& forall|n: usize| found.contains(n) <==> matching(g, name, version).contains(n)
}

/// Whether `r` is the answer for the name and version asked for by `spec`:
/// the one node that matches; or `NotFound` where none matches; or
/// `Ambiguous`, with the names of all that match, where several do.
pub open spec fn selected(
    g: GraphView,
    spec: Seq<char>,
    name: Seq<char>,
    version: Option<Seq<char>>,
    r: Result<usize, LookupError>,
) -> bool {
    match r {
        Ok(node) => matching(g, name, version) == Set::<usize>::empty().insert(node),
        Err(LookupError::NotFound { spec: asked }) => asked@ == spec && matching(g, name, version)
            == Set::<usize>::empty(),
        Err(LookupError::Ambiguous { spec: asked, candidates }) => asked@ == spec && exists|
            found: Seq<usize>,
        |
            lists_matching(g, name, version, found) && found.len() >= 2 && candidates@.len()
                == found.len() && forall|i: int|
                0 <= i < found.len() ==> (#[trigger] candidates@[i])@ == qualified(
                    g.packages[found[i]],
                ),
        Err(LookupError::InvalidVersion { .. }) => false,
    }
}

/// Whether `r` is the answer for `spec`: `InvalidVersion` where the spec asks
/// for a version that is no semantic version; else what is selected by its
/// name and, where it asks for one, by its version as that version is
/// printed.
pub open spec fn found_by(g: GraphView, spec: Seq<char>, r: Result<usize, LookupError>) -> bool {
    match spec_version(spec) {
        None => selected(g, spec, spec_name(spec), None, r),
        Some(written) => match semver_text(written) {
            None => r matches Err(LookupError::InvalidVersion { spec: asked, .. }) && asked@
                == spec,
            Some(version) => selected(g, spec, spec_name(spec), Some(version), r),
        },
    }
}

/// Whether two errors are of the same kind.
pub open spec fn same_kind(a: LookupError, b: LookupError) -> bool {
    &&& a is InvalidVersion <==> b is InvalidVersion
    &&& a is NotFound <==> b is NotFound
    &&& a is Ambiguous <==> b is Ambiguous
}

/// What is selected is one: two answers for the same name and version are
/// both the same node, or both errors of the same kind.
pub proof fn lemma_selected_is_one(
    g: GraphView,
    spec: Seq<char>,
    name: Seq<char>,
    version: Option<Seq<char>>,
    a: Result<usize, LookupError>,
    b: Result<usize, LookupError>,
)
    requires
        selected(g, spec, name, version, a),
        selected(g, spec, name, version, b),
    ensures
        match (a, b) {
            (Ok(x), Ok(y)) => x == y,
            (Err(e), Err(f)) => same_kind(e, f),
            _ => false,
        },
{
    let all = matching(g, name, version);
    let none = Set::<usize>::empty();
    if let Ok(x) = a {
        assert(none.insert(x).contains(x));
    }
    if let Ok(y) = b {
        assert(none.insert(y).contains(y));
    }
    if let Err(LookupError::Ambiguous { spec: asked, candidates }) = a {
        let found = choose|found: Seq<usize>|
            lists_matching(g, name, version, found) && found.len() >= 2 && candidates@.len()
                == found.len() && forall|i: int|
                0 <= i < found.len() ==> (#[trigger] candidates@[i])@ == qualified(
                    g.packages[found[i]],
                );
        assert(found.contains(found[0]) && found.contains(found[1]));
        assert(found[0] < found[1]);
        assert(all.contains(found[0]) && all.contains(found[1]));
    }
    if let Err(LookupError::Ambiguous { spec: asked, candidates }) = b {
        let found = choose|found: Seq<usize>|
            lists_matching(g, name, version, found) && found.len() >= 2 && candidates@.len()
                == found.len() && forall|i: int|
                0 <= i < found.len() ==> (#[trigger] candidates@[i])@ == qualified(
                    g.packages[found[i]],
                );
        assert(found.contains(found[0]) && found.contains(found[1]));
        assert(found[0] < found[1]);
        assert(all.contains(found[0]) && all.contains(found[1]));
    }
}

/// What is found for a spec is one: two answers are both the same node, or
/// both errors of the same kind.
pub proof fn lemma_found_by_is_one(
    g: GraphView,
    spec: Seq<char>,
    a: Result<usize, LookupError>,
    b: Result<usize, LookupError>,
)
    requires
        found_by(g, spec, a),
        found_by(g, spec, b),
    ensures
        match (a, b) {
            (Ok(x), Ok(y)) => x == y,
            (Err(e), Err(f)) => same_kind(e, f),
            _ => false,
        },
{
    match spec_version(spec) {
        None => {
            lemma_selected_is_one(g, spec, spec_name(spec), None, a, b);
        },
        Some(written) => match semver_text(written) {
            None => {},
            Some(version) => {
                lemma_selected_is_one(g, spec, spec_name(spec), Some(version), a, b);
            },
        },
    }
}

/// The name of a package among several: `name:version`.
fn qualified_name(name: &str, version: &str) -> (text: String)
    ensures
        text@ == name@ + seq![':'] + version@,
{
    let mut text = name.to_owned();
    proof {
        reveal_strlit(":");
        assert(":"@ =~= seq![':']);
    }
    text.append(":");
    text.append(version);
    text
}

/// Selects the package with the given name and, where one is given, the
/// given version. `spec` is what was asked for, for the error to say.
pub fn select_package(graph: &Graph, spec: &str, name: &str, version: Option<&str>) -> (r: Result<
    usize,
    LookupError,
>)
    ensures
        selected(
            graph@,
            spec@,
            name@,
            match version {
                Some(v) => Some(v@),
                None => None,
            },
            r,
        ),
{
    let ghost g = graph@;
    let ghost wanted: Option<Seq<char>> = match version {
        Some(v) => Some(v@),
        None => None,
    };
    let nodes = graph.node_indices();
    let mut candidates: Vec<usize> = Vec::new();
    let mut i: usize = 0;
    while i < nodes.len()
        invariant
            i <= nodes@.len(),
            g == graph@,
            wanted == (match version {
                Some(v) => Some(v@),
                None => None,
            }),
            forall|a: int, b: int| 0 <= a < b < nodes@.len() ==> nodes@[a] < nodes@[b],
            forall|n: usize| g.has(n) <==> nodes@.contains(n),
            forall|a: int, b: int| 0 <= a < b < candidates@.len() ==> candidates@[a] < candidates@[b],
            forall|k: int| 0 <= k < candidates@.len() ==> g.has(#[trigger] candidates@[k]),
            forall|k: int|
                0 <= k < candidates@.len() && i < nodes@.len() ==> #[trigger] candidates@[k]
                    < nodes@[i as int],
            forall|n: usize|
                candidates@.contains(n) <==> (matching(g, name@, wanted).contains(n) && exists|
                    k: int,
                |
                    0 <= k < i && nodes@[k] == n),
        decreases nodes@.len() - i,
    {
        let node = nodes[i];
        assert(nodes@[i as int] == node);
        assert(nodes@.contains(node));
        assert(g.has(node));
        let package = graph.package(node);
        let fits = str_eq(package.name.as_str(), name) && match version {
            Some(v) => str_eq(package.version.as_str(), v),
            None => true,
        };
        let ghost before = candidates@;
        if fits {
            candidates.push(node);
        }
        proof {
            assert(fits == matching(g, name@, wanted).contains(node));
            assert forall|n: usize|
                candidates@.contains(n) <==> (matching(g, name@, wanted).contains(n) && exists|
                    k: int,
                |
                    0 <= k < i + 1 && nodes@[k] == n) by {
                if candidates@.contains(n) {
                    let j = choose|j: int| 0 <= j < candidates@.len() && candidates@[j] == n;
                    if j < before.len() {
                        assert(before[j] == n);
                        assert(before.contains(n));
                    } else {
                        assert(nodes@[i as int] == n);
                    }
                }
                if matching(g, name@, wanted).contains(n) && exists|k: int|
                    0 <= k < i + 1 && nodes@[k] == n {
                    let k = choose|k: int| 0 <= k < i + 1 && nodes@[k] == n;
                    if k < i {
                        assert(before.contains(n));
                        let j = choose|j: int| 0 <= j < before.len() && before[j] == n;
                        assert(candidates@[j] == n);
                    } else {
                        assert(candidates@[candidates@.len() - 1] == n);
                    }
                }
            }
        }
        i += 1;
    }
    proof {
        assert forall|n: usize| candidates@.contains(n) <==> matching(g, name@, wanted).contains(
            n,
        ) by {
            if matching(g, name@, wanted).contains(n) {
                assert(nodes@.contains(n));
                let k = choose|k: int| 0 <= k < nodes@.len() && nodes@[k] == n;
                assert(0 <= k < i && nodes@[k] == n);
            }
        }
        assert(lists_matching(g, name@, wanted, candidates@));
    }
    if candidates.len() == 0 {
        proof {
            assert forall|n: usize| !matching(g, name@, wanted).contains(n) by {
                if matching(g, name@, wanted).contains(n) {
                    assert(candidates@.contains(n));
                }
            }
            assert(matching(g, name@, wanted) =~= Set::<usize>::empty());
        }
        Err(LookupError::NotFound { spec: spec.to_owned() })
    } else if candidates.len() > 1 {
        let mut specs: Vec<String> = Vec::new();
        let mut k: usize = 0;
        while k < candidates.len()
            invariant
                k <= candidates@.len(),
                specs@.len() == k,
                forall|j: int| 0 <= j < candidates@.len() ==> graph@.has(#[trigger] candidates@[j]),
                forall|j: int|
                    0 <= j < k ==> (#[trigger] specs@[j])@ == qualified(
                        graph@.packages[candidates@[j]],
                    ),
            decreases candidates@.len() - k,
        {
            let package = graph.package(candidates[k]);
            specs.push(qualified_name(package.name.as_str(), package.version.as_str()));
            k += 1;
        }
        Err(LookupError::Ambiguous { spec: spec.to_owned(), candidates: specs })
    } else {
        proof {
            let node = candidates@[0];
            assert(candidates@.contains(node));
            assert forall|n: usize| matching(g, name@, wanted).contains(n) implies n == node by {
                assert(candidates@.contains(n));
            }
            assert(matching(g, name@, wanted) =~= Set::<usize>::empty().insert(node));
        }
        Ok(candidates[0])
    }
}

/// Finds the package that `package` asks for: by name, or by `name:version`.
///
/// Fails with `InvalidVersion` where what follows the colon is no semantic
/// version, with `NotFound` where no package of the graph matches, and with
/// `Ambiguous` where several do.
pub fn find_package(package: &str, graph: &Graph) -> (r: Result<usize, LookupError>)
    ensures
        found_by(graph@, package@, r),
{
    let chars = chars_of(package);
    let len = chars.len();
    let mut colon: usize = 0;
    while colon < len && chars[colon] != ':'
        invariant
            chars@ == package@,
            len == chars@.len(),
            colon <= len,
            colon_from(package@, colon as int) == colon_from(package@, 0),
        decreases len - colon,
    {
        colon += 1;
    }
    let name = package.substring_char(0, colon);
    if colon == len {
        return select_package(graph, package, name, None);
    }
    let mut end: usize = colon + 1;
    while end < len && chars[end] != ':'
        invariant
            chars@ == package@,
            len == chars@.len(),
            colon < end <= len,
            colon_from(package@, end as int) == colon_from(package@, colon + 1),
        decreases len - end,
    {
        end += 1;
    }
    let written = package.substring_char(colon + 1, end);
    match parse_version(written) {
        Ok(version) => select_package(graph, package, name, Some(version.as_str())),
        Err(cause) => Err(LookupError::InvalidVersion { spec: package.to_owned(), cause }),
    }
}

} // verus!
