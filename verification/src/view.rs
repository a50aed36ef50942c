//! A view of the graph: which commits are visible, where each bookmark
//! points, and which commit is checked out. A view never changes; every
//! operation produces a new one.

use crate::dag::{
    all_below, lemma_reaches_extended, lemma_reaches_ordered, lemma_reaches_transitive, members,
    reaches, reaches_any, selected, strictly_ascending, Dag,
};
use crate::store::{graph, CommitData, CommitId, Store};
use vstd::prelude::*;

verus! {

/// A named pointer to a commit. After concurrent operations moved it to
/// different commits it points to all of them, and is conflicted.
pub struct Bookmark {
    pub name: String,
    pub targets: Vec<CommitId>,
}

/// What a bookmark is: its name and what it points to.
pub struct BookmarkData {
    pub name: Seq<char>,
    pub targets: Seq<CommitId>,
}

impl View for Bookmark {
    type V = BookmarkData;

    open spec fn view(&self) -> BookmarkData {
        BookmarkData { name: self.name@, targets: self.targets@ }
    }
}

/// A view of the graph.
pub struct RepoView {
    /// The visible commits that have no visible child, in ascending order.
    pub heads: Vec<CommitId>,
    /// The bookmarks, each name once.
    pub bookmarks: Vec<Bookmark>,
    /// The commit that is checked out.
    pub working_copy: CommitId,
}

/// What a view is: the heads of the visible commits, the bookmarks, and the
/// commit that is checked out.
pub struct ViewData {
    pub heads: Seq<CommitId>,
    pub bookmarks: Seq<BookmarkData>,
    pub working_copy: CommitId,
}

/// The models of a list of bookmarks.
pub open spec fn bookmark_models(bookmarks: Seq<Bookmark>) -> Seq<BookmarkData> {
    Seq::new(bookmarks.len(), |i: int| bookmarks[i]@)
}

impl View for RepoView {
    type V = ViewData;

    open spec fn view(&self) -> ViewData {
        ViewData {
            heads: self.heads@,
            bookmarks: bookmark_models(self.bookmarks@),
            working_copy: self.working_copy,
        }
    }
}

/// A commit is visible when it is an ancestor of a head.
pub open spec fn visible(g: Seq<Seq<usize>>, heads: Seq<CommitId>, c: int) -> bool {
    reaches_any(g, c, heads)
}

/// The commits that a bookmark of that name points to; none if there is no
/// such bookmark.
pub open spec fn targets_of(bookmarks: Seq<BookmarkData>, name: Seq<char>) -> Seq<CommitId>
    decreases bookmarks.len(),
{
    if bookmarks.len() == 0 {
        Seq::empty()
    } else if bookmarks.last().name == name {
        bookmarks.last().targets
    } else {
        targets_of(bookmarks.drop_last(), name)
    }
}

/// All targets of all bookmarks, one list after the other.
pub open spec fn all_targets(bookmarks: Seq<BookmarkData>) -> Seq<CommitId>
    decreases bookmarks.len(),
{
    if bookmarks.len() == 0 {
        Seq::empty()
    } else {
        all_targets(bookmarks.drop_last()) + bookmarks.last().targets
    }
}

/// No name occurs twice, and every bookmark points to at least one commit of
/// a store with `n` commits, its targets in ascending order.
pub open spec fn valid_bookmarks(bookmarks: Seq<BookmarkData>, n: int) -> bool {
    &&& forall|i: int, j: int|
        0 <= i < j < bookmarks.len() ==> bookmarks[i].name != bookmarks[j].name
    &&& forall|i: int|
        0 <= i < bookmarks.len() ==> {
            &&& (#[trigger] bookmarks[i]).targets.len() >= 1
            &&& strictly_ascending(bookmarks[i].targets)
            &&& all_below(bookmarks[i].targets, n)
        }
}

/// `c` is among `candidates`, and no other candidate descends from it.
pub open spec fn is_head(g: Seq<Seq<usize>>, candidates: Seq<CommitId>, c: CommitId) -> bool {
    &&& candidates.contains(c)
    &&& forall|k: int|
        0 <= k < candidates.len() && reaches(g, c as int, #[trigger] candidates[k] as int)
            ==> candidates[k] == c
}

/// `heads` lists, in ascending order, exactly the heads of `candidates`.
pub open spec fn heads_among(
    g: Seq<Seq<usize>>,
    candidates: Seq<CommitId>,
    heads: Seq<CommitId>,
) -> bool {
    &&& strictly_ascending(heads)
    &&& all_below(heads, g.len() as int)
    &&& forall|c: CommitId|
        c < g.len() ==> #[trigger] heads.contains(c) == is_head(g, candidates, c)
}

/// What holds of every view of the store `s`: the heads are in ascending
/// order and none is an ancestor of another, and the working copy and every
/// target of a bookmark are visible.
pub open spec fn valid_view(s: Seq<CommitData>, v: ViewData) -> bool {
    let g = graph(s);
    &&& strictly_ascending(v.heads)
    &&& all_below(v.heads, s.len() as int)
    &&& forall|i: int, j: int|
        0 <= i < v.heads.len() && 0 <= j < v.heads.len() && i != j ==> !reaches(
            g,
            v.heads[i] as int,
            v.heads[j] as int,
        )
    &&& v.working_copy < s.len()
    &&& visible(g, v.heads, v.working_copy as int)
    &&& valid_bookmarks(v.bookmarks, s.len() as int)
    &&& forall|i: int, t: int|
        0 <= i < v.bookmarks.len() && 0 <= t < v.bookmarks[i].targets.len() ==> visible(
            g,
            v.heads,
            (#[trigger] v.bookmarks[i].targets[t]) as int,
        )
}

/// Above every candidate there is a head.
pub proof fn lemma_head_above(g: Seq<Seq<usize>>, candidates: Seq<CommitId>, c: CommitId) -> (h:
    CommitId)
    requires
        all_below(candidates, g.len() as int),
        candidates.contains(c),
    ensures
        h < g.len(),
        is_head(g, candidates, h),
        reaches(g, c as int, h as int),
    decreases g.len() - c,
{
    if is_head(g, candidates, c) {
        c
    } else {
        let k = choose|k: int|
            0 <= k < candidates.len() && reaches(g, c as int, #[trigger] candidates[k] as int)
                && candidates[k] != c;
        lemma_reaches_ordered(g, c as int, candidates[k] as int);
        let h = lemma_head_above(g, candidates, candidates[k]);
        lemma_reaches_transitive(g, c as int, candidates[k] as int, h as int);
        h
    }
}

/// Every candidate is visible from the heads of the candidates.
pub proof fn lemma_candidates_visible(
    g: Seq<Seq<usize>>,
    candidates: Seq<CommitId>,
    heads: Seq<CommitId>,
    k: int,
)
    requires
        all_below(candidates, g.len() as int),
        heads_among(g, candidates, heads),
        0 <= k < candidates.len(),
    ensures
        visible(g, heads, candidates[k] as int),
{
    let h = lemma_head_above(g, candidates, candidates[k]);
    assert(heads.contains(h));
    let t = choose|t: int| 0 <= t < heads.len() && heads[t] == h;
    assert(reaches(g, candidates[k] as int, heads[t] as int));
}

/// No head is an ancestor of another head.
pub proof fn lemma_heads_unrelated(
    g: Seq<Seq<usize>>,
    candidates: Seq<CommitId>,
    heads: Seq<CommitId>,
    i: int,
    j: int,
)
    requires
        heads_among(g, candidates, heads),
        0 <= i < heads.len(),
        0 <= j < heads.len(),
        i != j,
    ensures
        !reaches(g, heads[i] as int, heads[j] as int),
{
    assert(heads.contains(heads[i]));
    assert(heads.contains(heads[j]));
    assert(is_head(g, candidates, heads[i]));
    assert(is_head(g, candidates, heads[j]));
    if reaches(g, heads[i] as int, heads[j] as int) {
        let k = choose|k: int| 0 <= k < candidates.len() && candidates[k] == heads[j];
        assert(candidates[k] == heads[i]);
    }
}

/// The members of `ids`, each once, in ascending order.
pub fn sorted_set(ids: &Vec<CommitId>, n: usize) -> (set: Vec<CommitId>)
    requires
        all_below(ids@, n as int),
    ensures
        strictly_ascending(set@),
        all_below(set@, n as int),
        forall|c: usize| c < n ==> #[trigger] set@.contains(c) == ids@.contains(c),
        ids@.len() >= 1 ==> set@.len() >= 1,
{
    let mask = members(ids, n);
    let set = selected(&mask);
    proof {
        assert forall|c: usize| c < n implies #[trigger] set@.contains(c) == ids@.contains(c) by {
            assert(set@.contains(c as int as usize) == mask@[c as int]);
        }
        if ids@.len() >= 1 {
            assert(ids@.contains(ids@[0]));
            assert(set@.contains(ids@[0]));
        }
    }
    set
}

/// The heads of `candidates`: those from which no other candidate descends,
/// in ascending order.
pub fn heads_of(dag: &Dag, candidates: &Vec<CommitId>) -> (heads: Vec<CommitId>)
    requires
        dag.wf(),
        all_below(candidates@, dag@.len() as int),
    ensures
        heads_among(dag@, candidates@, heads@),
{
    let n = dag.len();
    let among = members(candidates, n);
    let mut mask: Vec<bool> = Vec::new();
    let mut c: usize = 0;
    while c < n
        invariant
            dag.wf(),
            n == dag@.len(),
            0 <= c <= n,
            mask@.len() == c,
            among@.len() == n,
            forall|i: int| 0 <= i < n ==> among@[i] == candidates@.contains(i as usize),
            forall|i: int| 0 <= i < c ==> mask@[i] == is_head(dag@, candidates@, i as usize),
        decreases n - c,
    {
        let mut top = among[c];
        let mut k: usize = 0;
        while k < candidates.len()
            invariant
                dag.wf(),
                0 <= k <= candidates.len(),
                top == (candidates@.contains(c) && forall|j: int|
                    0 <= j < k && reaches(dag@, c as int, #[trigger] candidates@[j] as int)
                        ==> candidates@[j] == c),
            decreases candidates.len() - k,
        {
            if top && candidates[k] != c && dag.is_ancestor(c, candidates[k]) {
                top = false;
            }
            k += 1;
        }
        mask.push(top);
        c += 1;
    }
    let heads = selected(&mask);
    proof {
        assert forall|c: CommitId| c < dag@.len() implies #[trigger] heads@.contains(c) == is_head(
            dag@,
            candidates@,
            c,
        ) by {
            assert(heads@.contains(c as int as usize) == mask@[c as int]);
        }
    }
    heads
}

/// A view stays valid when the store grows.
pub proof fn lemma_view_stays_valid(s: Seq<CommitData>, t: Seq<CommitData>, v: ViewData)
    requires
        valid_view(s, v),
        s.len() <= t.len(),
        forall|i: int| 0 <= i < s.len() ==> t[i] == #[trigger] s[i],
    ensures
        valid_view(t, v),
{
    let g = graph(s);
    let h = graph(t);
    assert forall|i: int| 0 <= i < g.len() implies h[i] == #[trigger] g[i] by {
        assert(t[i] == s[i]);
    }
    assert forall|c: int| visible(g, v.heads, c) implies visible(h, v.heads, c) by {
        let i = choose|i: int| 0 <= i < v.heads.len() && reaches(g, c, #[trigger] v.heads[i] as int);
        lemma_reaches_extended(g, h, c, v.heads[i] as int);
        assert(reaches(h, c, v.heads[i] as int));
    }
    assert forall|i: int, j: int|
        0 <= i < v.heads.len() && 0 <= j < v.heads.len() && i != j implies !reaches(
        h,
        v.heads[i] as int,
        v.heads[j] as int,
    ) by {
        lemma_reaches_extended(g, h, v.heads[i] as int, v.heads[j] as int);
    }
}

/// Every member of the list of all targets names a commit.
pub proof fn lemma_all_targets_below(bookmarks: Seq<BookmarkData>, n: int, k: int)
    requires
        valid_bookmarks(bookmarks, n),
        0 <= k < all_targets(bookmarks).len(),
    ensures
        all_targets(bookmarks)[k] < n,
    decreases bookmarks.len(),
{
    let rest = bookmarks.drop_last();
    if k < all_targets(rest).len() {
        assert forall|i: int| 0 <= i < rest.len() implies {
            &&& (#[trigger] rest[i]).targets.len() >= 1
            &&& strictly_ascending(rest[i].targets)
            &&& all_below(rest[i].targets, n)
        } by {
            assert(rest[i] == bookmarks[i]);
        }
        assert forall|a: int, b: int| 0 <= a < b < rest.len() implies rest[a].name
            != rest[b].name by {
            assert(rest[a] == bookmarks[a] && rest[b] == bookmarks[b]);
        }
        lemma_all_targets_below(rest, n, k);
    } else {
        assert(bookmarks.last() == bookmarks[bookmarks.len() - 1]);
    }
}

/// The bookmark at position `i` is the one that its name finds.
pub proof fn lemma_targets_at(bookmarks: Seq<BookmarkData>, i: int)
    requires
        forall|a: int, b: int|
            0 <= a < b < bookmarks.len() ==> bookmarks[a].name != bookmarks[b].name,
        0 <= i < bookmarks.len(),
    ensures
        targets_of(bookmarks, bookmarks[i].name) == bookmarks[i].targets,
    decreases bookmarks.len(),
{
    if i < bookmarks.len() - 1 {
        let rest = bookmarks.drop_last();
        assert forall|a: int, b: int| 0 <= a < b < rest.len() implies rest[a].name
            != rest[b].name by {
            assert(rest[a] == bookmarks[a] && rest[b] == bookmarks[b]);
        }
        lemma_targets_at(rest, i);
    }
}

/// A name that no bookmark has finds nothing.
pub proof fn lemma_targets_absent(bookmarks: Seq<BookmarkData>, name: Seq<char>)
    requires
        forall|i: int| 0 <= i < bookmarks.len() ==> (#[trigger] bookmarks[i]).name != name,
    ensures
        targets_of(bookmarks, name) == Seq::<CommitId>::empty(),
    decreases bookmarks.len(),
{
    if bookmarks.len() > 0 {
        let rest = bookmarks.drop_last();
        assert forall|i: int| 0 <= i < rest.len() implies (#[trigger] rest[i]).name != name by {
            assert(rest[i] == bookmarks[i]);
        }
        lemma_targets_absent(rest, name);
    }
}

/// Every target of every bookmark occurs in the list of all targets.
pub proof fn lemma_all_targets_has(bookmarks: Seq<BookmarkData>, i: int, t: int) -> (k: int)
    requires
        0 <= i < bookmarks.len(),
        0 <= t < bookmarks[i].targets.len(),
    ensures
        0 <= k < all_targets(bookmarks).len(),
        all_targets(bookmarks)[k] == bookmarks[i].targets[t],
    decreases bookmarks.len(),
{
    let rest = all_targets(bookmarks.drop_last());
    if i == bookmarks.len() - 1 {
        rest.len() + t
    } else {
        lemma_all_targets_has(bookmarks.drop_last(), i, t)
    }
}

/// The position of the bookmark with this name, if there is one.
pub fn position_of(bookmarks: &Vec<Bookmark>, name: &String) -> (found: Option<usize>)
    ensures
        match found {
            Some(i) => i < bookmarks@.len() && bookmarks@[i as int].name@ == name@,
            None => forall|i: int| 0 <= i < bookmarks@.len() ==> (#[trigger] bookmarks@[i]).name@ != name@,
        },
{
    let mut i: usize = 0;
    while i < bookmarks.len()
        invariant
            0 <= i <= bookmarks.len(),
            forall|k: int| 0 <= k < i ==> (#[trigger] bookmarks@[k]).name@ != name@,
        decreases bookmarks.len() - i,
    {
        if bookmarks[i].name == *name {
            return Some(i);
        }
        i += 1;
    }
    None
}

/// A copy of `ids`.
pub fn copy_ids(ids: &Vec<CommitId>) -> (out: Vec<CommitId>)
    ensures
        out@ == ids@,
{
    let mut out: Vec<CommitId> = Vec::new();
    let mut i: usize = 0;
    while i < ids.len()
        invariant
            0 <= i <= ids.len(),
            out@ == ids@.subrange(0, i as int),
        decreases ids.len() - i,
    {
        out.push(ids[i]);
        proof {
            assert(out@ =~= ids@.subrange(0, i + 1));
        }
        i += 1;
    }
    proof {
        assert(ids@.subrange(0, ids@.len() as int) =~= ids@);
    }
    out
}

/// All targets of all bookmarks, one list after the other.
pub fn targets_in(bookmarks: &Vec<Bookmark>) -> (out: Vec<CommitId>)
    ensures
        out@ == all_targets(bookmark_models(bookmarks@)),
{
    let ghost models = bookmark_models(bookmarks@);
    let mut out: Vec<CommitId> = Vec::new();
    let mut i: usize = 0;
    while i < bookmarks.len()
        invariant
            0 <= i <= bookmarks.len(),
            models == bookmark_models(bookmarks@),
            out@ == all_targets(models.subrange(0, i as int)),
        decreases bookmarks.len() - i,
    {
        let ts = &bookmarks[i].targets;
        let ghost base = out@;
        let mut t: usize = 0;
        while t < ts.len()
            invariant
                0 <= t <= ts.len(),
                out@ == base + ts@.subrange(0, t as int),
            decreases ts.len() - t,
        {
            out.push(ts[t]);
            proof {
                assert(ts@.subrange(0, t + 1) =~= ts@.subrange(0, t as int).push(ts@[t as int]));
                assert(out@ =~= base + ts@.subrange(0, t + 1));
            }
            t += 1;
        }
        proof {
            assert(ts@.subrange(0, ts@.len() as int) =~= ts@);
            assert(models.subrange(0, i + 1).drop_last() =~= models.subrange(0, i as int));
            assert(models.subrange(0, i + 1).last() == bookmarks@[i as int]@);
        }
        i += 1;
    }
    proof {
        assert(models.subrange(0, models.len() as int) =~= models);
    }
    out
}

/// What `table` gives for each member of `ids`, in the same order.
pub open spec fn mapped(ids: Seq<CommitId>, table: Seq<CommitId>) -> Seq<CommitId> {
    Seq::new(ids.len(), |i: int| table[ids[i] as int])
}

/// `set` lists, in ascending order and each once, the members of `ids`.
pub open spec fn sorted_members(ids: Seq<CommitId>, set: Seq<CommitId>) -> bool {
    &&& strictly_ascending(set)
    &&& forall|c: CommitId| #[trigger] set.contains(c) == ids.contains(c)
}

/// `after` holds the bookmarks of `before` under the same names, each
/// pointing to what `table` gives for its old targets.
pub open spec fn bookmarks_moved(
    before: Seq<BookmarkData>,
    table: Seq<CommitId>,
    after: Seq<BookmarkData>,
) -> bool {
    &&& after.len() == before.len()
    &&& forall|i: int|
        0 <= i < before.len() ==> {
            &&& (#[trigger] after[i]).name == before[i].name
            &&& sorted_members(mapped(before[i].targets, table), after[i].targets)
        }
}

/// What `table` gives for each member of `ids`, in the same order.
pub fn map_ids(ids: &Vec<CommitId>, table: &Vec<CommitId>) -> (out: Vec<CommitId>)
    requires
        all_below(ids@, table@.len() as int),
    ensures
        out@ == mapped(ids@, table@),
{
    let mut out: Vec<CommitId> = Vec::new();
    let mut i: usize = 0;
    while i < ids.len()
        invariant
            0 <= i <= ids.len(),
            all_below(ids@, table@.len() as int),
            out@.len() == i,
            forall|k: int| 0 <= k < i ==> out@[k] == table@[ids@[k] as int],
        decreases ids.len() - i,
    {
        out.push(table[ids[i]]);
        i += 1;
    }
    proof {
        assert(out@ =~= mapped(ids@, table@));
    }
    out
}

/// The bookmarks with every target replaced by what `table` gives for it.
pub fn move_bookmarks(bookmarks: &Vec<Bookmark>, table: &Vec<CommitId>, n: usize) -> (out: Vec<
    Bookmark,
>)
    requires
        valid_bookmarks(bookmark_models(bookmarks@), table@.len() as int),
        all_below(table@, n as int),
    ensures
        bookmarks_moved(bookmark_models(bookmarks@), table@, bookmark_models(out@)),
        valid_bookmarks(bookmark_models(out@), n as int),
{
    let ghost before = bookmark_models(bookmarks@);
    let mut out: Vec<Bookmark> = Vec::new();
    let mut i: usize = 0;
    while i < bookmarks.len()
        invariant
            0 <= i <= bookmarks.len(),
            before == bookmark_models(bookmarks@),
            valid_bookmarks(before, table@.len() as int),
            all_below(table@, n as int),
            out@.len() == i,
            forall|k: int|
                0 <= k < i ==> {
                    &&& (#[trigger] out@[k]).name@ == before[k].name
                    &&& sorted_members(mapped(before[k].targets, table@), out@[k].targets@)
                    &&& out@[k].targets@.len() >= 1
                    &&& all_below(out@[k].targets@, n as int)
                },
        decreases bookmarks.len() - i,
    {
        let b = &bookmarks[i];
        assert(before[i as int] == b@);
        let image = map_ids(&b.targets, table);
        let targets = sorted_set(&image, n);
        proof {
            assert forall|c: CommitId| #[trigger] targets@.contains(c) == image@.contains(c) by {
                if targets@.contains(c) {
                    let w = choose|w: int| 0 <= w < targets@.len() && targets@[w] == c;
                    assert(c < n);
                }
                if image@.contains(c) {
                    let w = choose|w: int| 0 <= w < image@.len() && image@[w] == c;
                    assert(c < n);
                }
            }
        }
        out.push(Bookmark { name: b.name.clone(), targets });
        i += 1;
    }
    proof {
        let after = bookmark_models(out@);
        assert forall|a: int, b: int| 0 <= a < b < after.len() implies after[a].name
            != after[b].name by {
            assert(out@[a].name@ == before[a].name);
            assert(out@[b].name@ == before[b].name);
        }
        assert forall|k: int| 0 <= k < after.len() implies {
            &&& (#[trigger] after[k]).targets.len() >= 1
            &&& strictly_ascending(after[k].targets)
            &&& all_below(after[k].targets, n as int)
        } by {
            assert(out@[k].targets@.len() >= 1);
        }
        assert forall|k: int| 0 <= k < before.len() implies {
            &&& (#[trigger] after[k]).name == before[k].name
            &&& sorted_members(mapped(before[k].targets, table@), after[k].targets)
        } by {
            assert(out@[k].name@ == before[k].name);
        }
    }
    out
}

/// `after` holds the bookmarks of `before`, but that `name` points to
/// `target` alone.
pub open spec fn bookmark_set(
    before: Seq<BookmarkData>,
    name: Seq<char>,
    target: CommitId,
    after: Seq<BookmarkData>,
) -> bool {
    forall|n: Seq<char>|
        #[trigger] targets_of(after, n) == if n == name {
            seq![target]
        } else {
            targets_of(before, n)
        }
}

/// One of the first `upto` bookmarks has this name.
pub open spec fn named_before(bookmarks: Seq<BookmarkData>, upto: int, name: Seq<char>) -> bool {
    exists|k: int| 0 <= k < upto && (#[trigger] bookmarks[k]).name == name
}

/// The bookmarks with `name` pointing to `target` alone.
#[verifier::loop_isolation(false)]
pub fn with_bookmark(bookmarks: &Vec<Bookmark>, name: &str, target: CommitId, n: usize) -> (out: Vec<
    Bookmark,
>)
    requires
        valid_bookmarks(bookmark_models(bookmarks@), n as int),
        target < n,
    ensures
        valid_bookmarks(bookmark_models(out@), n as int),
        bookmark_set(bookmark_models(bookmarks@), name@, target, bookmark_models(out@)),
{
    let ghost before = bookmark_models(bookmarks@);
    let wanted = name.to_owned();
    let mut out: Vec<Bookmark> = Vec::new();
    let mut i: usize = 0;
    while i < bookmarks.len()
        invariant
            0 <= i <= bookmarks.len(),
            valid_bookmarks(bookmark_models(out@), n as int),
            forall|x: int|
                0 <= x < out@.len() ==> (#[trigger] out@[x]).name@ != name@ && named_before(
                    before,
                    i as int,
                    out@[x].name@,
                ),
            forall|m: Seq<char>|
                m != name@ ==> #[trigger] targets_of(bookmark_models(out@), m) == targets_of(
                    before.subrange(0, i as int),
                    m,
                ),
        decreases bookmarks.len() - i,
    {
        let b = &bookmarks[i];
        let ghost sofar = bookmark_models(out@);
        proof {
            assert(before[i as int] == b@);
            assert(before.subrange(0, i + 1).drop_last() =~= before.subrange(0, i as int));
            assert(before.subrange(0, i + 1).last() == b@);
        }
        if b.name != wanted {
            let entry = Bookmark { name: b.name.clone(), targets: copy_ids(&b.targets) };
            proof {
                assert forall|x: int| 0 <= x < sofar.len() implies (#[trigger] sofar[x]).name
                    != b@.name by {
                    assert(sofar[x] == out@[x]@);
                    assert(named_before(before, i as int, out@[x].name@));
                    let k = choose|k: int|
                        0 <= k < i && (#[trigger] before[k]).name == out@[x].name@;
                    assert(before[k].name != before[i as int].name);
                }
            }
            out.push(entry);
            proof {
                let now = bookmark_models(out@);
                assert(now =~= sofar.push(entry@));
                assert forall|m: Seq<char>| m != name@ implies #[trigger] targets_of(now, m)
                    == targets_of(before.subrange(0, i + 1), m) by {
                    assert(now.drop_last() =~= sofar);
                    assert(now.last() == entry@);
                    assert(targets_of(sofar, m) == targets_of(before.subrange(0, i as int), m));
                }
                assert forall|x: int| 0 <= x < out@.len() implies (#[trigger] out@[x]).name@
                    != name@ && named_before(before, i + 1, out@[x].name@) by {
                    if x < sofar.len() {
                        assert(out@[x]@ == sofar[x]);
                        assert(named_before(before, i as int, sofar[x].name));
                        let k = choose|k: int|
                            0 <= k < i && (#[trigger] before[k]).name == sofar[x].name;
                        assert(before[k].name == out@[x].name@);
                    } else {
                        assert(before[i as int].name == out@[x].name@);
                    }
                }
                assert forall|a: int, c: int| 0 <= a < c < now.len() implies now[a].name
                    != now[c].name by {
                    if c == sofar.len() {
                        assert(now[a] == sofar[a]);
                    } else {
                        assert(now[a] == sofar[a] && now[c] == sofar[c]);
                    }
                }
                assert forall|k: int| 0 <= k < now.len() implies {
                    &&& (#[trigger] now[k]).targets.len() >= 1
                    &&& strictly_ascending(now[k].targets)
                    &&& all_below(now[k].targets, n as int)
                } by {
                    if k < sofar.len() {
                        assert(now[k] == sofar[k]);
                    }
                }
            }
        } else {
            proof {
                assert forall|m: Seq<char>|
                    m != name@ implies #[trigger] targets_of(bookmark_models(out@), m)
                    == targets_of(before.subrange(0, i + 1), m) by {
                    assert(targets_of(sofar, m) == targets_of(before.subrange(0, i as int), m));
                }
                assert forall|x: int| 0 <= x < out@.len() implies (#[trigger] out@[x]).name@
                    != name@ && named_before(before, i + 1, out@[x].name@) by {
                    assert(named_before(before, i as int, out@[x].name@));
                    let k = choose|k: int|
                        0 <= k < i && (#[trigger] before[k]).name == out@[x].name@;
                    assert(before[k].name == out@[x].name@);
                }
            }
        }
        i += 1;
    }
    let mut targets: Vec<CommitId> = Vec::new();
    targets.push(target);
    let entry = Bookmark { name: wanted, targets };
    let ghost sofar = bookmark_models(out@);
    out.push(entry);
    proof {
        let now = bookmark_models(out@);
        assert(now =~= sofar.push(entry@));
        assert(before.subrange(0, before.len() as int) =~= before);
        assert(entry@.targets =~= seq![target]);
        assert forall|m: Seq<char>|
            #[trigger] targets_of(now, m) == if m == name@ {
                seq![target]
            } else {
                targets_of(before, m)
            } by {
            assert(now.drop_last() =~= sofar);
            assert(now.last() == entry@);
            if m != name@ {
                assert(targets_of(sofar, m) == targets_of(before, m));
            }
        }
        assert forall|a: int, c: int| 0 <= a < c < now.len() implies now[a].name
            != now[c].name by {
            if c == sofar.len() {
                assert(now[a] == sofar[a]);
                assert(sofar[a] == out@[a]@);
            } else {
                assert(now[a] == sofar[a] && now[c] == sofar[c]);
            }
        }
        assert forall|k: int| 0 <= k < now.len() implies {
            &&& (#[trigger] now[k]).targets.len() >= 1
            &&& strictly_ascending(now[k].targets)
            &&& all_below(now[k].targets, n as int)
        } by {
            if k < sofar.len() {
                assert(now[k] == sofar[k]);
            }
        }
    }
    out
}

/// What the heads of a view are taken from: the given candidates, every
/// target of a bookmark, and the working copy. Whatever a bookmark or the
/// working copy points at stays visible.
pub open spec fn anchors(
    candidates: Seq<CommitId>,
    bookmarks: Seq<BookmarkData>,
    working_copy: CommitId,
) -> Seq<CommitId> {
    candidates + all_targets(bookmarks) + seq![working_copy]
}

impl RepoView {
    /// The view with the given bookmarks and working copy whose heads are the
    /// heads of `candidates`, of the targets of the bookmarks and of the
    /// working copy.
    pub fn assemble(
        store: &Store,
        candidates: &Vec<CommitId>,
        bookmarks: Vec<Bookmark>,
        working_copy: CommitId,
    ) -> (view: RepoView)
        requires
            store.wf(),
            all_below(candidates@, store@.len() as int),
            valid_bookmarks(bookmark_models(bookmarks@), store@.len() as int),
            working_copy < store@.len(),
        ensures
            valid_view(store@, view@),
            view@.bookmarks == bookmark_models(bookmarks@),
            view@.working_copy == working_copy,
            heads_among(
                graph(store@),
                anchors(candidates@, view@.bookmarks, working_copy),
                view@.heads,
            ),
    {
        let ghost models = bookmark_models(bookmarks@);
        let ghost g = graph(store@);
        let mut all = copy_ids(candidates);
        let mut targets = targets_in(&bookmarks);
        proof {
            assert forall|k: int| 0 <= k < targets@.len() implies (#[trigger] targets@[k])
                < store@.len() by {
                lemma_all_targets_below(models, store@.len() as int, k);
            }
        }
        all.append(&mut targets);
        all.push(working_copy);
        proof {
            assert(all@ =~= anchors(candidates@, models, working_copy));
        }
        let heads = heads_of(store.dag(), &all);
        let view = RepoView { heads, bookmarks, working_copy };
        proof {
            let cands = all@;
            assert forall|i: int, j: int|
                0 <= i < heads@.len() && 0 <= j < heads@.len() && i != j implies !reaches(
                g,
                heads@[i] as int,
                heads@[j] as int,
            ) by {
                lemma_heads_unrelated(g, cands, heads@, i, j);
            }
            assert(cands[cands.len() - 1] == working_copy);
            lemma_candidates_visible(g, cands, heads@, cands.len() - 1);
            assert forall|i: int, t: int|
                0 <= i < models.len() && 0 <= t < models[i].targets.len() implies visible(
                g,
                heads@,
                (#[trigger] models[i].targets[t]) as int,
            ) by {
                let k = lemma_all_targets_has(models, i, t);
                assert(cands[candidates@.len() + k] == models[i].targets[t]);
                lemma_candidates_visible(g, cands, heads@, candidates@.len() + k);
            }
        }
        view
    }


    /// The view of a store that holds the root commit alone: the root is the
    /// only head and is checked out, and there are no bookmarks.
    pub fn initial() -> (view: RepoView)
        ensures
            view@.heads == seq![0usize],
            view@.bookmarks == Seq::<BookmarkData>::empty(),
            view@.working_copy == 0,
    {
        let mut heads: Vec<CommitId> = Vec::new();
        heads.push(0);
        let view = RepoView { heads, bookmarks: Vec::new(), working_copy: 0 };
        assert(view@.bookmarks =~= Seq::<BookmarkData>::empty());
        view
    }
}

/// The initial view is a valid view of every valid store.
pub proof fn lemma_initial_view_valid(s: Seq<CommitData>)
    requires
        s.len() >= 1,
    ensures
        valid_view(
            s,
            ViewData { heads: seq![0usize], bookmarks: Seq::empty(), working_copy: 0 },
        ),
{
    let heads = seq![0usize];
    assert(reaches(graph(s), 0, heads[0] as int));
}

} // verus!
