//! The packages of a workspace, as the tree renderer and the rules see them.

use vstd::prelude::*;

verus! {

/// Opaque identifier of one package instance.
///
/// Two identifiers are the same exactly when their text is the same.
#[derive(Debug, Clone)]
pub struct PackageId {
    pub repr: String,
}

impl View for PackageId {
    type V = Seq<char>;

    open spec fn view(&self) -> Seq<char> {
        self.repr@
    }
}

impl PackageId {
    /// The identifier spelled `repr`.
    pub fn new(repr: &str) -> (id: PackageId)
        ensures
            id@ == repr@,
    {
        PackageId { repr: repr.to_owned() }
    }
}

/// Classification of a dependency edge.
#[derive(Debug, Clone, Copy, PartialEq, Eq, Structural)]
pub enum DependencyKind {
    Normal,
    Build,
    Development,
}

/// One package of the dependency graph.
///
/// `version` is the text of the package's semantic version, as it is printed.
/// `source` is absent for a package that lives on the local disk; for such a
/// package `manifest_dir`, the directory that holds its manifest, says where.
#[derive(Debug, Clone)]
pub struct Package {
    pub name: String,
    pub version: String,
    pub id: PackageId,
    pub source: Option<String>,
    pub license: Option<String>,
    pub repository: Option<String>,
    pub manifest_dir: String,
}

/// What a [`Package`] holds, as mathematical values.
pub ghost struct PackageView {
    pub name: Seq<char>,
    pub version: Seq<char>,
    pub id: Seq<char>,
    pub source: Option<Seq<char>>,
    pub license: Option<Seq<char>>,
    pub repository: Option<Seq<char>>,
    pub manifest_dir: Seq<char>,
}

/// The characters of an optional string.
pub open spec fn option_text(s: Option<String>) -> Option<Seq<char>> {
    match s {
        Some(t) => Some(t@),
        None => None,
    }
}

impl View for Package {
    type V = PackageView;

    open spec fn view(&self) -> PackageView {
        PackageView {
            name: self.name@,
            version: self.version@,
            id: self.id@,
            source: option_text(self.source),
            license: option_text(self.license),
            repository: option_text(self.repository),
            manifest_dir: self.manifest_dir@,
        }
    }
}

impl Package {
    /// A package on the local disk with no license and no repository.
    pub fn new(name: &str, version: &str, id: PackageId, manifest_dir: &str) -> (p: Package)
        ensures
            p@ == (PackageView {
                name: name@,
                version: version@,
                id: id@,
                source: None,
                license: None,
                repository: None,
                manifest_dir: manifest_dir@,
            }),
    {
        Package {
            name: name.to_owned(),
            version: version.to_owned(),
            id,
            source: None,
            license: None,
            repository: None,
            manifest_dir: manifest_dir.to_owned(),
        }
    }
}

} // verus!
