//! What is reported after a commit was created: the new commit, its
//! parents, and how many descendants were rewritten. And what is said
//! beside a refusal: the commits that an ambiguous symbol named, and the
//! command that settles the ambiguity.

use crate::dag::all_below;
use crate::error::{AmbiguityReason, Error};
use crate::plan::EditMode;
use crate::revset::texts_of;
use crate::store::{CommitData, CommitId, Store, ROOT};
use crate::text::{
    change_text, chars_of, commit_text, decimal, decimal_text, part_of, push_all, spell_change,
    spell_commit, string_of,
};
use vstd::prelude::*;

verus! {

/// The number of characters of an id that a report shows.
pub const SHORT: usize = 8;

/// The beginning of an id that a report shows.
pub open spec fn short(text: Seq<char>) -> Seq<char> {
    text.subrange(0, 8)
}

/// A commit is empty if it has the tree of its first parent. The root is
/// empty.
pub open spec fn is_empty(s: Seq<CommitData>, c: CommitId) -> bool {
    c == ROOT || s[c as int].tree == s[s[c as int].parents[0] as int].tree
}

/// What is said of the content and the description of a commit.
pub open spec fn status_of(s: Seq<CommitData>, c: CommitId) -> Seq<char> {
    let mark = if is_empty(s, c) {
        "(empty) "@
    } else {
        Seq::empty()
    };
    if s[c as int].description.len() == 0 {
        mark + "(no description set)"@
    } else {
        mark + s[c as int].description
    }
}

/// What is said of a commit: the beginning of its change id, the beginning
/// of its commit id, and its status.
pub open spec fn commit_line(s: Seq<CommitData>, c: CommitId) -> Seq<char> {
    short(change_text(s[c as int].change_id as nat)) + " "@ + short(commit_text(c as nat)) + " "@
        + status_of(s, c)
}

/// One line for each of `parents`.
pub open spec fn parent_lines(s: Seq<CommitData>, parents: Seq<CommitId>) -> Seq<Seq<char>> {
    Seq::new(parents.len(), |i: int| "Parent commit      : "@ + commit_line(s, parents[i]))
}

/// The line that says how many descendants were rewritten; none if none
/// was.
pub open spec fn rebase_lines(rebased: nat) -> Seq<Seq<char>> {
    if rebased > 0 {
        seq!["Rebased "@ + decimal_text(rebased) + " descendant commits"@]
    } else {
        Seq::empty()
    }
}

/// The report on the new commit `c`: the count of rewritten descendants if
/// there are any, then the new commit, and if it was checked out also its
/// parents.
pub open spec fn report(s: Seq<CommitData>, c: CommitId, rebased: nat, mode: EditMode) -> Seq<
    Seq<char>,
> {
    match mode {
        EditMode::Edit => rebase_lines(rebased).push("Working copy now at: "@ + commit_line(s, c))
            + parent_lines(s, s[c as int].parents),
        EditMode::NoEdit => rebase_lines(rebased).push("Created new commit "@ + commit_line(s, c)),
    }
}

/// How commit `c` is listed among those that `symbol` named: the beginning
/// of its change id, the beginning of its commit id, and its status. A
/// conflicted bookmark is named with `??` after it, and a change id that
/// several commits carry has `??` after it.
pub open spec fn listed(
    s: Seq<CommitData>,
    symbol: Seq<char>,
    reason: AmbiguityReason,
    c: CommitId,
) -> Seq<char> {
    let change = short(change_text(s[c as int].change_id as nat));
    let commit = short(commit_text(c as nat));
    match reason {
        AmbiguityReason::ConflictedBookmark => "  "@ + change + " "@ + commit + " "@ + symbol
            + "?? | "@ + status_of(s, c) + "\n"@,
        AmbiguityReason::DivergentChange => "  "@ + change + "?? "@ + commit + " "@ + status_of(
            s,
            c,
        ) + "\n"@,
        AmbiguityReason::AmbiguousPrefix => "  "@ + change + " "@ + commit + " "@ + status_of(s, c)
            + "\n"@,
    }
}

/// The commits that `symbol` named, one line for each, in their order.
pub open spec fn listed_all(
    s: Seq<CommitData>,
    symbol: Seq<char>,
    reason: AmbiguityReason,
    commits: Seq<CommitId>,
) -> Seq<char>
    decreases commits.len(),
{
    if commits.len() == 0 {
        Seq::empty()
    } else {
        listed_all(s, symbol, reason, commits.drop_last()) + listed(
            s,
            symbol,
            reason,
            commits.last(),
        )
    }
}

/// What stands above the commits that `symbol` named.
pub open spec fn heading(symbol: Seq<char>, reason: AmbiguityReason) -> Seq<char> {
    match reason {
        AmbiguityReason::ConflictedBookmark => "Bookmark "@ + symbol
            + " resolved to multiple revisions because it's conflicted.\nIt resolved to these revisions:\n"@,
        _ => "The revset `"@ + symbol + "` resolved to these revisions:\n"@,
    }
}

/// How to settle the ambiguity of `symbol`.
pub open spec fn advice(symbol: Seq<char>, reason: AmbiguityReason) -> Seq<char> {
    match reason {
        AmbiguityReason::ConflictedBookmark => "Set which revision the bookmark points to with `jj bookmark set "@
            + symbol + " -r <REVISION>`.\n"@,
        AmbiguityReason::DivergentChange => "Some of these commits have the same change id. Abandon one of them with `jj abandon -r <REVISION>`.\n"@,
        AmbiguityReason::AmbiguousPrefix => "Use more characters of the id, or prefix the revset with `all:`.\n"@,
    }
}

/// What is said beside a refusal. Of a symbol that named several commits:
/// those commits under their heading, and how to settle the ambiguity.
/// Beside any other refusal nothing is said.
pub open spec fn hints(s: Seq<CommitData>, e: Error) -> Seq<Seq<char>> {
    match e {
        Error::AmbiguousRevision { symbol, commits, reason } => seq![
            heading(symbol@, reason) + listed_all(s, symbol@, reason, commits@),
            advice(symbol@, reason),
        ],
        _ => Seq::empty(),
    }
}

/// What is said of the content and the description of a commit.
fn status_for(store: &Store, c: CommitId) -> (out: Vec<char>)
    requires
        store.wf(),
        c < store@.len(),
    ensures
        out@ == status_of(store@, c),
{
    let ghost s = store@;
    let mut out: Vec<char> = Vec::new();
    let empty = if c == ROOT {
        true
    } else {
        let parents = store.parents_of(c);
        proof {
            assert(!crate::store::refused(s[c as int].parents));
            assert(crate::store::graph(s)[c as int][0] < c);
        }
        store.tree_of(c) == store.tree_of(parents[0])
    };
    if empty {
        push_all(&mut out, &chars_of("(empty) "));
    }
    let description = chars_of(store.description_of(c).as_str());
    if description.len() == 0 {
        push_all(&mut out, &chars_of("(no description set)"));
    } else {
        push_all(&mut out, &description);
    }
    proof {
        assert(out@ =~= status_of(s, c));
    }
    out
}

/// What is said of a commit.
fn line_for(store: &Store, c: CommitId) -> (out: Vec<char>)
    requires
        store.wf(),
        c < store@.len(),
    ensures
        out@ == commit_line(store@, c),
{
    let change = spell_change(store.change_of(c));
    let commit = spell_commit(c);
    let mut out = part_of(&change, 0, SHORT);
    push_all(&mut out, &chars_of(" "));
    push_all(&mut out, &part_of(&commit, 0, SHORT));
    push_all(&mut out, &chars_of(" "));
    push_all(&mut out, &status_for(store, c));
    out
}

/// How commit `c` is listed among those that `symbol` named.
fn entry_for(store: &Store, symbol: &Vec<char>, reason: AmbiguityReason, c: CommitId) -> (out: Vec<
    char,
>)
    requires
        store.wf(),
        c < store@.len(),
    ensures
        out@ == listed(store@, symbol@, reason, c),
{
    let change = spell_change(store.change_of(c));
    let commit = spell_commit(c);
    let mut out = chars_of("  ");
    push_all(&mut out, &part_of(&change, 0, SHORT));
    match reason {
        AmbiguityReason::ConflictedBookmark => {
            push_all(&mut out, &chars_of(" "));
            push_all(&mut out, &part_of(&commit, 0, SHORT));
            push_all(&mut out, &chars_of(" "));
            push_all(&mut out, symbol);
            push_all(&mut out, &chars_of("?? | "));
        },
        AmbiguityReason::DivergentChange => {
            push_all(&mut out, &chars_of("?? "));
            push_all(&mut out, &part_of(&commit, 0, SHORT));
            push_all(&mut out, &chars_of(" "));
        },
        AmbiguityReason::AmbiguousPrefix => {
            push_all(&mut out, &chars_of(" "));
            push_all(&mut out, &part_of(&commit, 0, SHORT));
            push_all(&mut out, &chars_of(" "));
        },
    }
    push_all(&mut out, &status_for(store, c));
    push_all(&mut out, &chars_of("\n"));
    out
}

/// What is said beside the refusal `error`, one text for each hint. The
/// commits that an ambiguous symbol named are listed as `store` holds them.
pub fn explain(store: &Store, error: &Error) -> (out: Vec<String>)
    requires
        store.wf(),
        error matches Error::AmbiguousRevision { commits, .. } ==> all_below(
            commits@,
            store@.len() as int,
        ),
    ensures
        texts_of(out@) == hints(store@, *error),
{
    let ghost s = store@;
    let mut out: Vec<String> = Vec::new();
    match error {
        Error::AmbiguousRevision { symbol, commits, reason } => {
            let name = chars_of(symbol.as_str());
            let mut first = match reason {
                AmbiguityReason::ConflictedBookmark => {
                    let mut text = chars_of("Bookmark ");
                    push_all(&mut text, &name);
                    push_all(
                        &mut text,
                        &chars_of(
                            " resolved to multiple revisions because it's conflicted.\nIt resolved to these revisions:\n",
                        ),
                    );
                    text
                },
                _ => {
                    let mut text = chars_of("The revset `");
                    push_all(&mut text, &name);
                    push_all(&mut text, &chars_of("` resolved to these revisions:\n"));
                    text
                },
            };
            let ghost head = first@;
            let mut i: usize = 0;
            while i < commits.len()
                invariant
                    store.wf(),
                    s == store@,
                    name@ == symbol@,
                    all_below(commits@, s.len() as int),
                    0 <= i <= commits.len(),
                    first@ == head + listed_all(s, name@, *reason, commits@.subrange(0, i as int)),
                decreases commits.len() - i,
            {
                let ghost sofar = first@;
                push_all(&mut first, &entry_for(store, &name, *reason, commits[i]));
                proof {
                    let upto = commits@.subrange(0, i + 1);
                    assert(upto.drop_last() =~= commits@.subrange(0, i as int));
                    assert(upto.last() == commits@[i as int]);
                    assert(first@ =~= head + listed_all(s, name@, *reason, upto));
                }
                i += 1;
            }
            proof {
                assert(commits@.subrange(0, commits@.len() as int) =~= commits@);
            }
            let second = match reason {
                AmbiguityReason::ConflictedBookmark => {
                    let mut text = chars_of(
                        "Set which revision the bookmark points to with `jj bookmark set ",
                    );
                    push_all(&mut text, &name);
                    push_all(&mut text, &chars_of(" -r <REVISION>`.\n"));
                    text
                },
                AmbiguityReason::DivergentChange => chars_of(
                    "Some of these commits have the same change id. Abandon one of them with `jj abandon -r <REVISION>`.\n",
                ),
                AmbiguityReason::AmbiguousPrefix => chars_of(
                    "Use more characters of the id, or prefix the revset with `all:`.\n",
                ),
            };
            out.push(string_of(&first));
            out.push(string_of(&second));
            proof {
                assert(texts_of(out@) =~= hints(s, *error));
            }
        },
        _ => {
            proof {
                assert(texts_of(out@) =~= hints(s, *error));
            }
        },
    }
    out
}

/// The report on the new commit `c`, line by line.
pub fn summarize(store: &Store, c: CommitId, rebased: usize, mode: EditMode) -> (lines: Vec<String>)
    requires
        store.wf(),
        c < store@.len(),
    ensures
        texts_of(lines@) == report(store@, c, rebased as nat, mode),
{
    let ghost s = store@;
    let mut lines: Vec<String> = Vec::new();
    if rebased > 0 {
        let mut line = chars_of("Rebased ");
        push_all(&mut line, &decimal(rebased));
        push_all(&mut line, &chars_of(" descendant commits"));
        lines.push(string_of(&line));
    }
    proof {
        assert(texts_of(lines@) =~= rebase_lines(rebased as nat));
    }
    let ghost first = texts_of(lines@);
    match mode {
        EditMode::Edit => {
            let mut line = chars_of("Working copy now at: ");
            push_all(&mut line, &line_for(store, c));
            lines.push(string_of(&line));
            let ghost head = texts_of(lines@);
            proof {
                assert(head =~= first.push("Working copy now at: "@ + commit_line(s, c)));
            }
            let parents = store.parents_of(c);
            let mut i: usize = 0;
            while i < parents.len()
                invariant
                    store.wf(),
                    s == store@,
                    c < s.len(),
                    parents@ == s[c as int].parents,
                    0 <= i <= parents.len(),
                    texts_of(lines@) == head + parent_lines(s, parents@.subrange(0, i as int)),
                decreases parents.len() - i,
            {
                let ghost sofar = texts_of(lines@);
                proof {
                    assert(crate::store::graph(s)[c as int][i as int] < c);
                }
                let mut line = chars_of("Parent commit      : ");
                push_all(&mut line, &line_for(store, parents[i]));
                lines.push(string_of(&line));
                proof {
                    assert(texts_of(lines@) =~= sofar.push(
                        "Parent commit      : "@ + commit_line(s, parents@[i as int]),
                    ));
                    assert(texts_of(lines@) =~= head + parent_lines(
                        s,
                        parents@.subrange(0, i + 1),
                    ));
                }
                i += 1;
            }
            proof {
                assert(parents@.subrange(0, parents@.len() as int) =~= parents@);
            }
        },
        EditMode::NoEdit => {
            let mut line = chars_of("Created new commit ");
            push_all(&mut line, &line_for(store, c));
            lines.push(string_of(&line));
            proof {
                assert(texts_of(lines@) =~= first.push(
                    "Created new commit "@ + commit_line(s, c),
                ));
            }
        },
    }
    lines
}

} // verus!
