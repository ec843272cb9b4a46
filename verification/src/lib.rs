//! Checks the dependency graph of a package workspace against rules of the
//! form "package X must not depend on package Y", and lays the graph out as an
//! indented tree in which every offending edge is marked.

use vstd::prelude::*;

pub mod dependency_graph;
pub mod dependency_rule;
pub mod metadata;
pub mod package;
pub mod text;

verus! {

/// Outcome of checking a workspace against its dependency rules.
///
/// The two values combine like booleans under "or": once a violation has been
/// seen, no later result can hide it.
#[derive(Debug, Clone, Copy, PartialEq, Eq, Structural)]
pub enum ReturnStatus {
    NoViolation,
    Violation,
}

impl ReturnStatus {
    /// The boolean this status stands for: `true` for `Violation`.
    pub open spec fn violated(self) -> bool {
        self == ReturnStatus::Violation
    }

    /// The status that stands for `violated`.
    pub open spec fn of(violated: bool) -> ReturnStatus {
        if violated {
            ReturnStatus::Violation
        } else {
            ReturnStatus::NoViolation
        }
    }

    /// `Violation` exactly when `violated` is true.
    pub fn from_flag(violated: bool) -> (r: ReturnStatus)
        ensures
            r == ReturnStatus::of(violated),
    {
        if violated {
            ReturnStatus::Violation
        } else {
            ReturnStatus::NoViolation
        }
    }

    /// True exactly for `Violation`.
    pub fn is_violation(&self) -> (r: bool)
        ensures
            r == self.violated(),
    {
        match self {
            ReturnStatus::Violation => true,
            ReturnStatus::NoViolation => false,
        }
    }

    /// Combines two outcomes: `Violation` if either is one.
    pub fn combine(self, other: ReturnStatus) -> (r: ReturnStatus)
        ensures
            r == ReturnStatus::of(self.violated() || other.violated()),
    {
        match (self, other) {
            (ReturnStatus::NoViolation, ReturnStatus::NoViolation) => ReturnStatus::NoViolation,
            _ => ReturnStatus::Violation,
        }
    }
}

/// Combining is commutative, associative and idempotent, `NoViolation` is its
/// neutral element and `Violation` absorbs everything.
pub proof fn lemma_status_combine_laws(a: ReturnStatus, b: ReturnStatus, c: ReturnStatus)
    ensures
        ReturnStatus::of(a.violated() || b.violated()) == ReturnStatus::of(
            b.violated() || a.violated(),
        ),
        ReturnStatus::of(
            ReturnStatus::of(a.violated() || b.violated()).violated() || c.violated(),
        ) == ReturnStatus::of(
            a.violated() || ReturnStatus::of(b.violated() || c.violated()).violated(),
        ),
        ReturnStatus::of(a.violated() || a.violated()) == a,
        ReturnStatus::of(a.violated() || ReturnStatus::NoViolation.violated()) == a,
        ReturnStatus::of(a.violated() || ReturnStatus::Violation.violated())
            == ReturnStatus::Violation,
{
}

} // verus!
