//! The ways in which a request can be refused. Every refusal is reported to
//! the caller as it is; none is recovered from silently.

use vstd::prelude::*;

verus! {

/// Why a symbol names more than one commit.
#[derive(Clone, Copy, Debug, PartialEq, Eq, Structural)]
pub enum AmbiguityReason {
    /// The symbol is a bookmark that concurrent operations moved to
    /// different commits.
    ConflictedBookmark,
    /// The symbol is a change id that more than one visible commit carries.
    DivergentChange,
    /// The symbol is a prefix shared by several commit ids or change ids.
    AmbiguousPrefix,
}

/// The command that settles an ambiguity.
#[derive(Clone, Copy, Debug, PartialEq, Eq, Structural)]
pub enum Remedy {
    /// Point the bookmark at one revision again.
    BookmarkSet,
    /// Abandon all but one of the commits that share the change id.
    Abandon,
    /// Spell out more characters of the id.
    LongerPrefix,
}

/// Which options of a request contradict each other.
#[derive(Clone, Copy, Debug, PartialEq, Eq, Structural)]
pub enum UsageProblem {
    /// Both `edit` and `no_edit` were asked for.
    EditWithNoEdit,
    /// Positional parents were given together with an insertion target.
    ParentsWithInsertion,
    /// The same commit was named twice as a parent, and not through `all:`.
    RepeatedParent,
}

/// Why a request was refused.
#[derive(Clone, Debug, PartialEq, Eq)]
pub enum Error {
    /// A symbol named more than one commit and was not prefixed with `all:`.
    /// Carries every commit it named.
    AmbiguousRevision { symbol: String, commits: Vec<usize>, reason: AmbiguityReason },
    /// A symbol named no commit.
    UnknownRevision { symbol: String },
    /// The named commit would be both an ancestor and a descendant of the
    /// new commit.
    LoopError { commit: usize },
    /// The root commit would be one of several parents of a merge, or would
    /// itself gain a parent.
    BackendConstraintViolation,
    /// The root commit would be rewritten.
    ImmutableCommit { commit: usize },
    /// Options that exclude each other were combined.
    UsageError { problem: UsageProblem },
}

impl AmbiguityReason {
    /// The command that resolves an ambiguity of this kind.
    pub fn remedy(&self) -> (r: Remedy)
        ensures
            r == match *self {
                AmbiguityReason::ConflictedBookmark => Remedy::BookmarkSet,
                AmbiguityReason::DivergentChange => Remedy::Abandon,
                AmbiguityReason::AmbiguousPrefix => Remedy::LongerPrefix,
            },
    {
        match self {
            AmbiguityReason::ConflictedBookmark => Remedy::BookmarkSet,
            AmbiguityReason::DivergentChange => Remedy::Abandon,
            AmbiguityReason::AmbiguousPrefix => Remedy::LongerPrefix,
        }
    }

    /// Whether the commits are listed with the `??` marker: conflicted
    /// bookmarks and divergent changes are, shared prefixes are not.
    pub fn is_conflict(&self) -> (r: bool)
        ensures
            r == !(*self == AmbiguityReason::AmbiguousPrefix),
    {
        match self {
            AmbiguityReason::AmbiguousPrefix => false,
            _ => true,
        }
    }
}

} // verus!
