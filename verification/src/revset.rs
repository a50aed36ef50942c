//! Resolving a symbol to commits. A symbol is tried as the beginning of a
//! commit id, then of a change id, then as the name of a bookmark, and last
//! as one of the functions `@`, `root()`, `visible_heads()` and
//! `description(text)`. Only visible commits are ever found.

use crate::dag::{all_below, lemma_first_reaches, reaches, selected, strictly_ascending};
use crate::error::{AmbiguityReason, Error};
use crate::plan::all_visible;
use crate::store::{graph, CommitData, CommitId, Store, ROOT};
use crate::text::{
    change_text, chars_of, commit_text, contains_text, has_prefix, occurs_in, part_of, same_chars,
    spell_change, spell_commit, starts_with,
};
use crate::view::{
    copy_ids, lemma_targets_absent, lemma_targets_at, targets_of, valid_view, visible, Bookmark,
    BookmarkData, RepoView, ViewData,
};
use vstd::prelude::*;

verus! {

/// What a symbol resolved to.
pub enum ResolvedSet {
    /// No commit.
    Empty,
    /// Exactly one commit.
    Unique(CommitId),
    /// The two or more commits that a function gave. This is no ambiguity.
    Several(Vec<CommitId>),
    /// The two or more commits that one name stands for, and why.
    Ambiguous { commits: Vec<CommitId>, reason: AmbiguityReason },
}

/// Which reading of a symbol found its commits.
#[derive(Clone, Copy, Debug, PartialEq, Eq, Structural)]
pub enum Source {
    CommitIds,
    ChangeIds,
    Bookmark,
    WorkingCopy,
    Root,
    Heads,
    Description,
    Nothing,
}

/// `c` is a visible commit whose id begins with `name`.
pub open spec fn by_commit_id(s: Seq<CommitData>, v: ViewData, name: Seq<char>, c: CommitId) -> bool {
    &&& c < s.len()
    &&& visible(graph(s), v.heads, c as int)
    &&& has_prefix(commit_text(c as nat), name)
}

/// `c` is a visible commit whose change id begins with `name`.
pub open spec fn by_change_id(s: Seq<CommitData>, v: ViewData, name: Seq<char>, c: CommitId) -> bool {
    &&& c < s.len()
    &&& visible(graph(s), v.heads, c as int)
    &&& has_prefix(change_text(s[c as int].change_id as nat), name)
}

/// `c` is a visible commit whose description holds `needle`.
pub open spec fn described(s: Seq<CommitData>, v: ViewData, needle: Seq<char>, c: CommitId) -> bool {
    &&& c < s.len()
    &&& visible(graph(s), v.heads, c as int)
    &&& occurs_in(s[c as int].description, needle)
}

/// `name` has the form `description(text)`.
pub open spec fn is_description_call(name: Seq<char>) -> bool {
    &&& has_prefix(name, "description("@)
    &&& name.len() > "description("@.len()
    &&& name.last() == ')'
}

/// The text between the brackets of `description(text)`.
pub open spec fn description_argument(name: Seq<char>) -> Seq<char> {
    name.subrange("description("@.len() as int, name.len() - 1)
}

/// The first reading of `name` that finds a commit.
pub open spec fn source_of(s: Seq<CommitData>, v: ViewData, name: Seq<char>) -> Source {
    if name.len() > 0 && exists|c: CommitId| #[trigger] by_commit_id(s, v, name, c) {
        Source::CommitIds
    } else if name.len() > 0 && exists|c: CommitId| #[trigger] by_change_id(s, v, name, c) {
        Source::ChangeIds
    } else if targets_of(v.bookmarks, name).len() > 0 {
        Source::Bookmark
    } else if name == "@"@ {
        Source::WorkingCopy
    } else if name == "root()"@ {
        Source::Root
    } else if name == "visible_heads()"@ {
        Source::Heads
    } else if is_description_call(name) {
        Source::Description
    } else {
        Source::Nothing
    }
}

/// Whether the reading `source` of `name` finds the commit `c`.
pub open spec fn selects(
    s: Seq<CommitData>,
    v: ViewData,
    name: Seq<char>,
    source: Source,
    c: CommitId,
) -> bool {
    match source {
        Source::CommitIds => by_commit_id(s, v, name, c),
        Source::ChangeIds => by_change_id(s, v, name, c),
        Source::Bookmark => targets_of(v.bookmarks, name).contains(c),
        Source::WorkingCopy => c == v.working_copy,
        Source::Root => c == ROOT,
        Source::Heads => v.heads.contains(c),
        Source::Description => described(s, v, description_argument(name), c),
        Source::Nothing => false,
    }
}

/// All of `commits` belong to one change.
pub open spec fn one_change(s: Seq<CommitData>, commits: Seq<CommitId>) -> bool {
    forall|i: int|
        0 <= i < commits.len() ==> s[#[trigger] commits[i] as int].change_id
            == s[commits[0] as int].change_id
}

/// Why several commits found by the reading `source` are an ambiguity; none
/// where a function gave them.
pub open spec fn reason_of(s: Seq<CommitData>, source: Source, commits: Seq<CommitId>) -> Option<
    AmbiguityReason,
> {
    match source {
        Source::CommitIds => Some(AmbiguityReason::AmbiguousPrefix),
        Source::ChangeIds => if one_change(s, commits) {
            Some(AmbiguityReason::DivergentChange)
        } else {
            Some(AmbiguityReason::AmbiguousPrefix)
        },
        Source::Bookmark => Some(AmbiguityReason::ConflictedBookmark),
        _ => None,
    }
}

impl ResolvedSet {
    /// The commits of the set, in ascending order.
    pub open spec fn members(&self) -> Seq<CommitId> {
        match self {
            ResolvedSet::Empty => Seq::empty(),
            ResolvedSet::Unique(c) => seq![*c],
            ResolvedSet::Several(commits) => commits@,
            ResolvedSet::Ambiguous { commits, .. } => commits@,
        }
    }

    /// The set has the form that goes with its size: empty, unique, or,
    /// with two or more commits, ambiguous for the given reason or several.
    pub open spec fn shaped(&self, reason: Option<AmbiguityReason>) -> bool {
        match self {
            ResolvedSet::Empty => true,
            ResolvedSet::Unique(_) => true,
            ResolvedSet::Several(commits) => commits@.len() >= 2 && reason is None,
            ResolvedSet::Ambiguous { commits, reason: why } => commits@.len() >= 2 && reason
                == Some(*why),
        }
    }
}

/// `r` is what `name` resolves to in the view `v` of the store `s`: the
/// commits that the first successful reading of `name` finds, in ascending
/// order.
pub open spec fn resolved(s: Seq<CommitData>, v: ViewData, name: Seq<char>, r: ResolvedSet) -> bool {
    let source = source_of(s, v, name);
    &&& strictly_ascending(r.members())
    &&& all_below(r.members(), s.len() as int)
    &&& forall|c: CommitId| #[trigger] r.members().contains(c) == selects(s, v, name, source, c)
    &&& r.shaped(reason_of(s, source, r.members()))
}

/// The commits that `name` resolves to, in ascending order.
pub open spec fn found(s: Seq<CommitData>, v: ViewData, name: Seq<char>) -> Seq<CommitId> {
    choose|ids: Seq<CommitId>| listing(s, v, name, ids)
}

/// `ids` lists, in ascending order, the commits that `name` resolves to.
pub open spec fn listing(s: Seq<CommitData>, v: ViewData, name: Seq<char>, ids: Seq<CommitId>) -> bool {
    &&& strictly_ascending(ids)
    &&& forall|c: CommitId| #[trigger] ids.contains(c) == selects(s, v, name, source_of(s, v, name), c)
}

/// Two lists in ascending order with the same members are the same list.
pub proof fn lemma_ascending_unique(a: Seq<CommitId>, b: Seq<CommitId>)
    requires
        strictly_ascending(a),
        strictly_ascending(b),
        forall|c: CommitId|
            #![trigger a.contains(c)]
            #![trigger b.contains(c)]
            a.contains(c) == b.contains(c),
    ensures
        a == b,
    decreases a.len(),
{
    if a.len() == 0 {
        if b.len() > 0 {
            assert(b.contains(b[0]));
            let w = choose|w: int| 0 <= w < a.len() && a[w] == b[0];
        }
        assert(a =~= b);
    } else {
        assert(a.contains(a[a.len() - 1]));
        let j = choose|j: int| 0 <= j < b.len() && b[j] == a[a.len() - 1];
        assert(b.contains(b[b.len() - 1]));
        let i = choose|i: int| 0 <= i < a.len() && a[i] == b[b.len() - 1];
        assert(a.last() == b.last());
        let x = a.drop_last();
        let y = b.drop_last();
        assert forall|c: CommitId|
            #![trigger x.contains(c)]
            #![trigger y.contains(c)]
            x.contains(c) == y.contains(c) by {
            if x.contains(c) {
                let w = choose|w: int| 0 <= w < x.len() && x[w] == c;
                assert(a[w] == c);
                assert(a.contains(c));
                let u = choose|u: int| 0 <= u < b.len() && b[u] == c;
                assert(u < b.len() - 1);
                assert(y[u] == c);
            }
            if y.contains(c) {
                let w = choose|w: int| 0 <= w < y.len() && y[w] == c;
                assert(b[w] == c);
                assert(b.contains(c));
                let u = choose|u: int| 0 <= u < a.len() && a[u] == c;
                assert(u < a.len() - 1);
                assert(x[u] == c);
            }
        }
        lemma_ascending_unique(x, y);
        assert(a =~= x.push(a.last()));
        assert(b =~= y.push(b.last()));
    }
}

/// A listing of what `name` resolves to is what `found` gives.
pub proof fn lemma_found(s: Seq<CommitData>, v: ViewData, name: Seq<char>, ids: Seq<CommitId>)
    requires
        listing(s, v, name, ids),
    ensures
        found(s, v, name) == ids,
{
    let other = found(s, v, name);
    assert(listing(s, v, name, other));
    lemma_ascending_unique(other, ids);
}

/// What a name finds among the bookmarks, if anything, are the targets of
/// one of them.
pub proof fn lemma_targets_found(bookmarks: Seq<BookmarkData>, name: Seq<char>)
    requires
        targets_of(bookmarks, name).len() > 0,
    ensures
        exists|b: int| 0 <= b < bookmarks.len() && (#[trigger] bookmarks[b]).targets == targets_of(bookmarks, name),
    decreases bookmarks.len(),
{
    if bookmarks.len() > 0 {
        if bookmarks.last().name == name {
            assert(bookmarks[bookmarks.len() - 1].targets == targets_of(bookmarks, name));
        } else {
            lemma_targets_found(bookmarks.drop_last(), name);
            let b = choose|b: int|
                0 <= b < bookmarks.drop_last().len() && (#[trigger] bookmarks.drop_last()[b]).targets
                    == targets_of(bookmarks.drop_last(), name);
            assert(bookmarks[b].targets == targets_of(bookmarks, name));
        }
    }
}

/// `text` without a leading `all:`.
pub open spec fn without_all(text: Seq<char>) -> Seq<char> {
    if has_prefix(text, "all:"@) {
        text.subrange("all:"@.len() as int, text.len() as int)
    } else {
        text
    }
}

/// The set with the given commits: empty, unique, or of the given kind.
fn shape(ids: Vec<CommitId>, reason: Option<AmbiguityReason>) -> (r: ResolvedSet)
    ensures
        r.members() == ids@,
        r.shaped(reason),
{
    if ids.len() == 0 {
        assert(ids@ =~= Seq::<CommitId>::empty());
        ResolvedSet::Empty
    } else if ids.len() == 1 {
        assert(ids@ =~= seq![ids@[0]]);
        ResolvedSet::Unique(ids[0])
    } else {
        match reason {
            Some(why) => ResolvedSet::Ambiguous { commits: ids, reason: why },
            None => ResolvedSet::Several(ids),
        }
    }
}

/// The position of the bookmark with this name, if there is one.
fn find_bookmark(bookmarks: &Vec<Bookmark>, name: &Vec<char>) -> (found: Option<usize>)
    ensures
        match found {
            Some(i) => i < bookmarks@.len() && bookmarks@[i as int].name@ == name@,
            None => forall|i: int| 0 <= i < bookmarks@.len() ==> (#[trigger] bookmarks@[i]).name@ != name@,
        },
{
    let mut i: usize = 0;
    while i < bookmarks.len()
        invariant
            0 <= i <= bookmarks.len(),
            forall|k: int| 0 <= k < i ==> (#[trigger] bookmarks@[k]).name@ != name@,
        decreases bookmarks.len() - i,
    {
        let spelled = chars_of(bookmarks[i].name.as_str());
        if same_chars(&spelled, name) {
            return Some(i);
        }
        i += 1;
    }
    None
}

/// Whether all of `commits` belong to one change.
fn same_change(store: &Store, commits: &Vec<CommitId>) -> (r: bool)
    requires
        store.wf(),
        all_below(commits@, store@.len() as int),
        commits@.len() >= 1,
    ensures
        r == one_change(store@, commits@),
{
    let first = store.change_of(commits[0]);
    let mut i: usize = 0;
    while i < commits.len()
        invariant
            store.wf(),
            all_below(commits@, store@.len() as int),
            commits@.len() >= 1,
            first == store@[commits@[0] as int].change_id,
            0 <= i <= commits.len(),
            forall|k: int|
                0 <= k < i ==> store@[#[trigger] commits@[k] as int].change_id == first,
        decreases commits.len() - i,
    {
        if store.change_of(commits[i]) != first {
            return false;
        }
        i += 1;
    }
    true
}

/// Resolves a symbol that carries no `all:` in the view `view` of `store`.
pub fn resolve_name(store: &Store, view: &RepoView, name: &Vec<char>) -> (r: ResolvedSet)
    requires
        store.wf(),
        valid_view(store@, view@),
    ensures
        resolved(store@, view@, name@, r),
        r.members() == found(store@, view@, name@),
        all_visible(graph(store@), view@.heads, r.members()),
{
    let r = find(store, view, name);
    proof {
        lemma_found(store@, view@, name@, r.members());
        let s = store@;
        let v = view@;
        let g = graph(s);
        let source = source_of(s, v, name@);
        assert forall|i: int| 0 <= i < r.members().len() implies (#[trigger] r.members()[i])
            < g.len() && visible(g, v.heads, r.members()[i] as int) by {
            let c = r.members()[i];
            assert(r.members().contains(c));
            assert(selects(s, v, name@, source, c));
            match source {
                Source::Bookmark => {
                    let ts = targets_of(v.bookmarks, name@);
                    let t = choose|t: int| 0 <= t < ts.len() && ts[t] == c;
                    lemma_targets_found(v.bookmarks, name@);
                    let b = choose|b: int|
                        0 <= b < v.bookmarks.len() && v.bookmarks[b].targets == ts;
                    assert(visible(g, v.heads, v.bookmarks[b].targets[t] as int));
                },
                Source::Root => {
                    let h = choose|h: int|
                        0 <= h < v.heads.len() && reaches(
                            g,
                            v.working_copy as int,
                            #[trigger] v.heads[h] as int,
                        );
                    assert forall|k: int| 1 <= k < g.len() implies (#[trigger] g[k]).len() >= 1 by {
                        assert(!crate::store::refused(s[k].parents));
                    }
                    lemma_first_reaches(g, v.heads[h] as int);
                },
                Source::Heads => {
                    let h = choose|h: int| 0 <= h < v.heads.len() && v.heads[h] == c;
                    assert(reaches(g, c as int, v.heads[h] as int));
                },
                _ => {},
            }
        }
    }
    r
}

/// Resolves a symbol that carries no `all:`.
#[verifier::loop_isolation(false)]
fn find(store: &Store, view: &RepoView, name: &Vec<char>) -> (r: ResolvedSet)
    requires
        store.wf(),
        valid_view(store@, view@),
    ensures
        resolved(store@, view@, name@, r),
{
    let ghost s = store@;
    let ghost v = view@;
    let ghost g = graph(s);
    let n = store.len();
    let dag = store.dag();
    let vis = dag.ancestors_of(&view.heads);
    if name.len() > 0 {
        // The beginning of a commit id.
        let mut mask: Vec<bool> = Vec::new();
        let mut c: usize = 0;
        while c < n
            invariant
                0 <= c <= n,
                mask@.len() == c,
                forall|k: int| 0 <= k < c ==> mask@[k] == by_commit_id(s, v, name@, k as usize),
            decreases n - c,
        {
            let spelled = spell_commit(c);
            mask.push(vis[c] && starts_with(&spelled, name));
            c += 1;
        }
        let ids = selected(&mask);
        proof {
            assert forall|x: CommitId| #[trigger] ids@.contains(x) == by_commit_id(s, v, name@, x) by {
                if x < n {
                    assert(ids@.contains(x as int as usize) == mask@[x as int]);
                } else if ids@.contains(x) {
                    let w = choose|w: int| 0 <= w < ids@.len() && ids@[w] == x;
                }
            }
        }
        if ids.len() > 0 {
            proof {
                assert(ids@.contains(ids@[0]));
                assert(by_commit_id(s, v, name@, ids@[0]));
            }
            return shape(ids, Some(AmbiguityReason::AmbiguousPrefix));
        }
        proof {
            assert forall|x: CommitId| !#[trigger] by_commit_id(s, v, name@, x) by {
                if by_commit_id(s, v, name@, x) {
                    assert(ids@.contains(x));
                    let w = choose|w: int| 0 <= w < ids@.len() && ids@[w] == x;
                }
            }
        }
        // The beginning of a change id.
        let mut mask: Vec<bool> = Vec::new();
        let mut c: usize = 0;
        while c < n
            invariant
                0 <= c <= n,
                mask@.len() == c,
                forall|k: int| 0 <= k < c ==> mask@[k] == by_change_id(s, v, name@, k as usize),
            decreases n - c,
        {
            let spelled = spell_change(store.change_of(c));
            mask.push(vis[c] && starts_with(&spelled, name));
            c += 1;
        }
        let ids = selected(&mask);
        proof {
            assert forall|x: CommitId| #[trigger] ids@.contains(x) == by_change_id(s, v, name@, x) by {
                if x < n {
                    assert(ids@.contains(x as int as usize) == mask@[x as int]);
                } else if ids@.contains(x) {
                    let w = choose|w: int| 0 <= w < ids@.len() && ids@[w] == x;
                }
            }
        }
        if ids.len() > 0 {
            proof {
                assert(ids@.contains(ids@[0]));
                assert(by_change_id(s, v, name@, ids@[0]));
            }
            let reason = if same_change(store, &ids) {
                AmbiguityReason::DivergentChange
            } else {
                AmbiguityReason::AmbiguousPrefix
            };
            return shape(ids, Some(reason));
        }
        proof {
            assert forall|x: CommitId| !#[trigger] by_change_id(s, v, name@, x) by {
                if by_change_id(s, v, name@, x) {
                    assert(ids@.contains(x));
                    let w = choose|w: int| 0 <= w < ids@.len() && ids@[w] == x;
                }
            }
        }
    }
    // The name of a bookmark.
    let ghost models = v.bookmarks;
    match find_bookmark(&view.bookmarks, name) {
        Some(i) => {
            proof {
                assert(models[i as int] == view.bookmarks@[i as int]@);
                lemma_targets_at(models, i as int);
            }
            let ids = copy_ids(&view.bookmarks[i].targets);
            return shape(ids, Some(AmbiguityReason::ConflictedBookmark));
        },
        None => {
            proof {
                assert forall|i: int| 0 <= i < models.len() implies (#[trigger] models[i]).name
                    != name@ by {
                    assert(models[i] == view.bookmarks@[i]@);
                }
                lemma_targets_absent(models, name@);
            }
        },
    }
    // A function.
    if same_chars(name, &chars_of("@")) {
        let mut ids: Vec<CommitId> = Vec::new();
        ids.push(view.working_copy);
        proof {
            assert forall|x: CommitId| #[trigger] ids@.contains(x) == (x == v.working_copy) by {
                if x == v.working_copy {
                    assert(ids@[0] == x);
                }
            }
        }
        return shape(ids, None);
    }
    if same_chars(name, &chars_of("root()")) {
        let mut ids: Vec<CommitId> = Vec::new();
        ids.push(ROOT);
        proof {
            assert forall|x: CommitId| #[trigger] ids@.contains(x) == (x == ROOT) by {
                if x == ROOT {
                    assert(ids@[0] == x);
                }
            }
        }
        return shape(ids, None);
    }
    if same_chars(name, &chars_of("visible_heads()")) {
        return shape(copy_ids(&view.heads), None);
    }
    let opening = chars_of("description(");
    if starts_with(name, &opening) && name.len() > opening.len() && name[name.len() - 1] == ')' {
        let needle = part_of(name, opening.len(), name.len() - 1);
        let mut mask: Vec<bool> = Vec::new();
        let mut c: usize = 0;
        while c < n
            invariant
                0 <= c <= n,
                mask@.len() == c,
                forall|k: int| 0 <= k < c ==> mask@[k] == described(s, v, needle@, k as usize),
            decreases n - c,
        {
            let text = chars_of(store.description_of(c).as_str());
            mask.push(vis[c] && contains_text(&text, &needle));
            c += 1;
        }
        let ids = selected(&mask);
        proof {
            assert forall|x: CommitId| #[trigger] ids@.contains(x) == described(s, v, needle@, x) by {
                if x < n {
                    assert(ids@.contains(x as int as usize) == mask@[x as int]);
                } else if ids@.contains(x) {
                    let w = choose|w: int| 0 <= w < ids@.len() && ids@[w] == x;
                }
            }
        }
        return shape(ids, None);
    }
    let r = ResolvedSet::Empty;
    proof {
        assert forall|x: CommitId| #[trigger] r.members().contains(x) == false by {}
    }
    r
}

/// `text` begins with `all:`.
pub open spec fn carries_all(text: Seq<char>) -> bool {
    has_prefix(text, "all:"@)
}

/// `name` stands for several commits, and for a reason: a conflicted
/// bookmark, a divergent change, or a prefix that several ids share.
pub open spec fn ambiguous(s: Seq<CommitData>, v: ViewData, name: Seq<char>) -> bool {
    found(s, v, name).len() >= 2 && reason_of(s, source_of(s, v, name), found(s, v, name)) is Some
}

/// The revset `text` cannot be used: it names no commit, or it is ambiguous
/// and carries no `all:`.
pub open spec fn fails(s: Seq<CommitData>, v: ViewData, text: Seq<char>) -> bool {
    let name = without_all(text);
    found(s, v, name).len() == 0 || (ambiguous(s, v, name) && !carries_all(text))
}

/// `e` is the error for the failing revset `text`: it names the revset, and
/// for an ambiguity every commit that the revset stands for and the reason.
pub open spec fn failure(s: Seq<CommitData>, v: ViewData, text: Seq<char>, e: Error) -> bool {
    let name = without_all(text);
    let ids = found(s, v, name);
    if ids.len() == 0 {
        e matches Error::UnknownRevision { symbol } && symbol@ == text
    } else {
        e matches Error::AmbiguousRevision { symbol, commits, reason } && symbol@ == text
            && commits@ == ids && Some(reason) == reason_of(s, source_of(s, v, name), ids)
    }
}

/// Resolves a symbol; a leading `all:` is not part of the symbol.
pub fn resolve(store: &Store, view: &RepoView, symbol: &str) -> (r: ResolvedSet)
    requires
        store.wf(),
        valid_view(store@, view@),
    ensures
        resolved(store@, view@, without_all(symbol@), r),
        r.members() == found(store@, view@, without_all(symbol@)),
        all_visible(graph(store@), view@.heads, r.members()),
{
    let text = chars_of(symbol);
    let marker = chars_of("all:");
    if starts_with(&text, &marker) {
        let name = part_of(&text, marker.len(), text.len());
        resolve_name(store, view, &name)
    } else {
        resolve_name(store, view, &text)
    }
}

/// The commits that a revset gives. A revset that stands for several
/// commits through a conflicted bookmark, a divergent change or a shared
/// prefix gives them only if it begins with `all:`.
pub fn evaluate(store: &Store, view: &RepoView, text: &str) -> (r: Result<Vec<CommitId>, Error>)
    requires
        store.wf(),
        valid_view(store@, view@),
    ensures
        match r {
            Ok(ids) => {
                &&& !fails(store@, view@, text@)
                &&& ids@ == found(store@, view@, without_all(text@))
                &&& all_visible(graph(store@), view@.heads, ids@)
            },
            Err(e) => fails(store@, view@, text@) && failure(store@, view@, text@, e),
        },
{
    let spelled = chars_of(text);
    let with_all = starts_with(&spelled, &chars_of("all:"));
    match resolve(store, view, text) {
        ResolvedSet::Empty => Err(Error::UnknownRevision { symbol: text.to_owned() }),
        ResolvedSet::Unique(c) => {
            let mut ids: Vec<CommitId> = Vec::new();
            ids.push(c);
            assert(ids@ =~= seq![c]);
            Ok(ids)
        },
        ResolvedSet::Several(commits) => Ok(commits),
        ResolvedSet::Ambiguous { commits, reason } => {
            if with_all {
                Ok(commits)
            } else {
                Err(Error::AmbiguousRevision { symbol: text.to_owned(), commits, reason })
            }
        },
    }
}

/// The texts of a list of revsets.
pub open spec fn texts_of(revsets: Seq<String>) -> Seq<Seq<char>> {
    Seq::new(revsets.len(), |i: int| revsets[i]@)
}

/// What the revsets give, one after the other. Nothing is left out: a
/// commit that two revsets give occurs twice.
pub open spec fn all_found(s: Seq<CommitData>, v: ViewData, texts: Seq<Seq<char>>) -> Seq<CommitId>
    decreases texts.len(),
{
    if texts.len() == 0 {
        Seq::empty()
    } else {
        all_found(s, v, texts.drop_last()) + found(s, v, without_all(texts.last()))
    }
}

/// For every commit of `all_found`, whether the revset that gave it began
/// with `all:`.
pub open spec fn all_flags(s: Seq<CommitData>, v: ViewData, texts: Seq<Seq<char>>) -> Seq<bool>
    decreases texts.len(),
{
    if texts.len() == 0 {
        Seq::empty()
    } else {
        all_flags(s, v, texts.drop_last()) + Seq::new(
            found(s, v, without_all(texts.last())).len(),
            |i: int| carries_all(texts.last()),
        )
    }
}

/// `texts[i]` is the first of the revsets that fails.
pub open spec fn first_failing(s: Seq<CommitData>, v: ViewData, texts: Seq<Seq<char>>, i: int) -> bool {
    &&& 0 <= i < texts.len()
    &&& fails(s, v, texts[i])
    &&& forall|j: int| 0 <= j < i ==> !fails(s, v, #[trigger] texts[j])
}

/// None of the revsets fails.
pub open spec fn none_fails(s: Seq<CommitData>, v: ViewData, texts: Seq<Seq<char>>) -> bool {
    forall|j: int| 0 <= j < texts.len() ==> !fails(s, v, #[trigger] texts[j])
}

/// The commits that a list of revsets gives, in the order of the revsets,
/// and for each commit whether its revset began with `all:`. The first
/// revset that fails gives the error.
pub fn evaluate_all(store: &Store, view: &RepoView, revsets: &Vec<String>) -> (r: Result<
    (Vec<CommitId>, Vec<bool>),
    Error,
>)
    requires
        store.wf(),
        valid_view(store@, view@),
    ensures
        match r {
            Ok((ids, flags)) => {
                &&& none_fails(store@, view@, texts_of(revsets@))
                &&& ids@ == all_found(store@, view@, texts_of(revsets@))
                &&& flags@ == all_flags(store@, view@, texts_of(revsets@))
                &&& all_visible(graph(store@), view@.heads, ids@)
            },
            Err(e) => exists|i: int|
                first_failing(store@, view@, texts_of(revsets@), i) && failure(
                    store@,
                    view@,
                    #[trigger] texts_of(revsets@)[i],
                    e,
                ),
        },
{
    let ghost s = store@;
    let ghost v = view@;
    let ghost texts = texts_of(revsets@);
    let mut ids: Vec<CommitId> = Vec::new();
    let mut flags: Vec<bool> = Vec::new();
    let mut i: usize = 0;
    while i < revsets.len()
        invariant
            store.wf(),
            valid_view(store@, view@),
            s == store@,
            v == view@,
            texts == texts_of(revsets@),
            0 <= i <= revsets.len(),
            forall|j: int| 0 <= j < i ==> !fails(s, v, #[trigger] texts[j]),
            ids@ == all_found(s, v, texts.subrange(0, i as int)),
            flags@ == all_flags(s, v, texts.subrange(0, i as int)),
            all_visible(graph(s), v.heads, ids@),
        decreases revsets.len() - i,
    {
        let text = revsets[i].as_str();
        assert(texts[i as int] == text@);
        let with_all = starts_with(&chars_of(text), &chars_of("all:"));
        match evaluate(store, view, text) {
            Ok(more) => {
                let ghost before = ids@;
                let ghost before_flags = flags@;
                let mut k: usize = 0;
                while k < more.len()
                    invariant
                        0 <= k <= more.len(),
                        ids@ == before + more@.subrange(0, k as int),
                        flags@ == before_flags + Seq::new(k as nat, |x: int| with_all),
                    decreases more.len() - k,
                {
                    ids.push(more[k]);
                    flags.push(with_all);
                    proof {
                        assert(more@.subrange(0, k + 1) =~= more@.subrange(0, k as int).push(
                            more@[k as int],
                        ));
                        assert(ids@ =~= before + more@.subrange(0, k + 1));
                        assert(flags@ =~= before_flags + Seq::new(
                            (k + 1) as nat,
                            |x: int| with_all,
                        ));
                    }
                    k += 1;
                }
                proof {
                    assert(more@.subrange(0, more@.len() as int) =~= more@);
                    assert(texts.subrange(0, i + 1).drop_last() =~= texts.subrange(0, i as int));
                    assert(texts.subrange(0, i + 1).last() == texts[i as int]);
                    assert(flags@ =~= all_flags(s, v, texts.subrange(0, i + 1)));
                    assert forall|x: int| 0 <= x < ids@.len() implies (#[trigger] ids@[x])
                        < graph(s).len() && visible(graph(s), v.heads, ids@[x] as int) by {
                        if x < before.len() {
                            assert(ids@[x] == before[x]);
                        } else {
                            assert(ids@[x] == more@[x - before.len()]);
                        }
                    }
                }
            },
            Err(e) => {
                proof {
                    assert(first_failing(s, v, texts, i as int));
                }
                return Err(e);
            },
        }
        i += 1;
    }
    proof {
        assert(texts.subrange(0, texts.len() as int) =~= texts);
    }
    Ok((ids, flags))
}

} // verus!
