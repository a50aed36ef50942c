//! The repository: the commit store and the log of operations. Every
//! operation holds the view that it produced; nothing is ever removed from
//! the log. Operations that were made side by side are merged when the log
//! is next observed.

use crate::dag::{
    acyclic, all_below, contains, lemma_first_reaches, lemma_reaches_extended,
    lemma_reaches_ordered, reaches, selected, strictly_ascending, Dag,
};
use crate::error::Error;
use crate::merge::{bookmarks_merged, kept, merge_views, working_copy_merged};
use crate::plan::{
    children_planned, law_insert_after_rebases_descendants, lemma_rewritten_from_children,
    EditMode, Plan,
};
use crate::rebase::{identity, rewrite_members, rewrites_done, write_plan, written};
use crate::request::{plan_new_commit, planning, Request};
use crate::revset::texts_of;
use crate::store::{
    ancestor, graph, next_change, root_commit, stored, valid_store, CommitData, CommitId, Store,
    ROOT,
};
use crate::view::{
    anchors, bookmark_set, bookmarks_moved, copy_ids, heads_among, lemma_initial_view_valid,
    lemma_view_stays_valid, map_ids, mapped, move_bookmarks, valid_view, visible, with_bookmark,
    RepoView, ViewData,
};
use vstd::prelude::*;

verus! {

/// The position of an operation in the log. The first operation is at 0.
pub type OpId = usize;

/// A repository: its commits, and every operation with the view that it
/// produced.
pub struct Repo {
    store: Store,
    ops: Dag,
    views: Vec<RepoView>,
    heads: Vec<OpId>,
}

/// `a` and `b` were made side by side: neither knows of the other.
pub open spec fn divergent_operations(g: Seq<Seq<usize>>, a: OpId, b: OpId) -> bool {
    !reaches(g, a as int, b as int) && !reaches(g, b as int, a as int)
}

/// `base` is the latest operation that both `a` and `b` descend from.
pub open spec fn is_merge_base(g: Seq<Seq<usize>>, a: OpId, b: OpId, base: OpId) -> bool {
    &&& reaches(g, base as int, a as int)
    &&& reaches(g, base as int, b as int)
    &&& forall|c: OpId|
        #![trigger reaches(g, c as int, a as int)]
        reaches(g, c as int, a as int) && reaches(g, c as int, b as int) ==> c <= base
}

/// The view `out` is the merge of the views `left` and `right`, which grew
/// from the view `base`, over the commits `s`.
pub open spec fn view_merged(
    s: Seq<CommitData>,
    base: ViewData,
    left: ViewData,
    right: ViewData,
    out: ViewData,
) -> bool {
    &&& bookmarks_merged(base.bookmarks, left.bookmarks, right.bookmarks, out.bookmarks)
    &&& out.working_copy == working_copy_merged(
        base.working_copy,
        left.working_copy,
        right.working_copy,
    )
    &&& heads_among(
        graph(s),
        anchors(
            kept(left.heads, base.heads, right.heads) + kept(right.heads, base.heads, left.heads),
            out.bookmarks,
            out.working_copy,
        ),
        out.heads,
    )
}

/// The heads of the log after an operation with the given parents was
/// added at position `id`: the old heads but for those parents, and the new
/// operation.
pub open spec fn heads_after(
    before: Seq<OpId>,
    parents: Seq<OpId>,
    id: OpId,
    after: Seq<OpId>,
) -> bool {
    &&& strictly_ascending(after)
    &&& forall|x: OpId|
        #[trigger] after.contains(x) == (x == id || (before.contains(x) && !parents.contains(x)))
}

/// What creating a commit gave.
pub struct Outcome {
    /// The new commit.
    pub commit: CommitId,
    /// The operation that recorded it.
    pub operation: OpId,
    /// The plan that was carried out.
    pub plan: Plan,
    /// What was done with the working copy.
    pub mode: EditMode,
    /// For every commit that was in the store before, the commit that
    /// stands for it now: its rewrite if it was rewritten, else itself.
    pub table: Vec<CommitId>,
}

impl Outcome {
    /// The number of descendants that were rewritten.
    pub fn rebased(&self) -> (n: usize)
        ensures
            n == self.plan.rebase@.len(),
    {
        self.plan.rebase.len()
    }
}

/// What giving a commit a new description gave.
pub struct Rewritten {
    /// The commit with the new description.
    pub commit: CommitId,
    /// The operation that recorded it.
    pub operation: OpId,
    /// The descendants that were rewritten, parents before children.
    pub rebase: Vec<CommitId>,
    /// For every commit that was in the store before, the commit that
    /// stands for it now.
    pub table: Vec<CommitId>,
}

/// `rebase` lists, in ascending order, the visible commits that descend
/// from `target` and are not `target`.
pub open spec fn descendants_listed(
    s: Seq<CommitData>,
    heads: Seq<CommitId>,
    target: CommitId,
    rebase: Seq<CommitId>,
) -> bool {
    &&& strictly_ascending(rebase)
    &&& all_below(rebase, s.len() as int)
    &&& forall|c: CommitId|
        c < s.len() ==> #[trigger] rebase.contains(c) == (visible(graph(s), heads, c as int)
            && ancestor(s, target, c) && c != target)
}

/// The table in which `commit` stands for `target` and every other commit
/// for itself.
pub open spec fn standing_for(n: nat, target: CommitId, commit: CommitId) -> Seq<CommitId> {
    Seq::new(
        n,
        |i: int|
            if i == target {
                commit
            } else {
                i as usize
            },
    )
}

/// The commit `target` with another description.
pub open spec fn with_description(s: Seq<CommitData>, target: CommitId, description: Seq<char>) -> CommitData {
    CommitData { description, ..s[target as int] }
}

/// The view `after` is the view `before` carried over a rewrite: every
/// bookmark and head points to what stands for its old target, the new
/// commit is visible, and the working copy is the new commit, or else what
/// stands for the old working copy.
pub open spec fn view_moved(
    s: Seq<CommitData>,
    before: ViewData,
    table: Seq<CommitId>,
    new_commit: CommitId,
    mode: EditMode,
    after: ViewData,
) -> bool {
    &&& bookmarks_moved(before.bookmarks, table, after.bookmarks)
    &&& after.working_copy == match mode {
        EditMode::Edit => new_commit,
        EditMode::NoEdit => table[before.working_copy as int],
    }
    &&& heads_among(
        graph(s),
        anchors(
            mapped(before.heads, table).push(new_commit),
            after.bookmarks,
            after.working_copy,
        ),
        after.heads,
    )
}

/// Operation `k` is a merge: it has two parents, and its view is the merge
/// of their views around the view of their merge base.
pub open spec fn merge_recorded(
    s: Seq<CommitData>,
    ops: Seq<Seq<usize>>,
    views: Seq<ViewData>,
    k: int,
) -> bool {
    &&& ops[k].len() == 2
    &&& forall|base: OpId| #[trigger]
        is_merge_base(ops, ops[k][0], ops[k][1], base) ==> view_merged(
            s,
            views[base as int],
            views[ops[k][0] as int],
            views[ops[k][1] as int],
            views[k],
        )
}

/// The `j`-th merge of a reconciliation that started with `first`
/// operations and the heads `tops`: it merges what was merged before, or
/// the first head, with the head `tops[j]`.
pub open spec fn merged_at(
    s: Seq<CommitData>,
    tops: Seq<OpId>,
    first: int,
    ops: Seq<Seq<usize>>,
    views: Seq<ViewData>,
    j: int,
) -> bool {
    let k = first + j - 1;
    &&& ops[k] == seq![
        if j == 1 {
            tops[0]
        } else {
            (k - 1) as usize
        },
        tops[j],
    ]
    &&& merge_recorded(s, ops, views, k)
}

/// What a reconciliation leaves: the old operations as they were, one merge
/// for every head but the first, and the last merge, or else the only head,
/// as its result.
pub open spec fn reconciled(
    s: Seq<CommitData>,
    ops: Seq<Seq<usize>>,
    views: Seq<ViewData>,
    tops: Seq<OpId>,
    new_ops: Seq<Seq<usize>>,
    new_views: Seq<ViewData>,
    head: OpId,
) -> bool {
    &&& new_ops.len() == ops.len() + tops.len() - 1
    &&& new_views.len() == new_ops.len()
    &&& forall|k: int| 0 <= k < ops.len() ==> new_ops[k] == #[trigger] ops[k]
    &&& forall|k: int| 0 <= k < ops.len() ==> new_views[k] == #[trigger] views[k]
    &&& head == if tops.len() == 1 {
        tops[0]
    } else {
        (new_ops.len() - 1) as usize
    }
    &&& forall|j: int|
        1 <= j < tops.len() ==> #[trigger] merged_at(s, tops, ops.len() as int, new_ops, new_views, j)
}

/// A log that was extended has the same merge bases among its old
/// operations.
proof fn lemma_merge_base_extended(g: Seq<Seq<usize>>, h: Seq<Seq<usize>>, a: OpId, b: OpId, x: OpId)
    requires
        g.len() <= h.len(),
        forall|i: int| 0 <= i < g.len() ==> h[i] == #[trigger] g[i],
        a < g.len(),
        b < g.len(),
    ensures
        is_merge_base(h, a, b, x) == is_merge_base(g, a, b, x),
{
    lemma_reaches_extended(g, h, x as int, a as int);
    lemma_reaches_extended(g, h, x as int, b as int);
    assert forall|c: OpId|
        #![trigger reaches(g, c as int, a as int)]
        #![trigger reaches(h, c as int, a as int)]
        reaches(g, c as int, a as int) == reaches(h, c as int, a as int) && reaches(
            g,
            c as int,
            b as int,
        ) == reaches(h, c as int, b as int) by {
        lemma_reaches_extended(g, h, c as int, a as int);
        lemma_reaches_extended(g, h, c as int, b as int);
    }
}

/// The visible commits that descend from `target` and are not `target`, in
/// ascending order.
pub fn proper_descendants(store: &Store, view: &RepoView, target: CommitId) -> (rebase: Vec<CommitId>)
    requires
        store.wf(),
        valid_view(store@, view@),
        target < store@.len(),
    ensures
        descendants_listed(store@, view@.heads, target, rebase@),
        forall|i: int| 0 <= i < rebase@.len() ==> #[trigger] rebase@[i] >= 1,
{
    let ghost s0 = store@;
    let ghost g = graph(s0);
    let ghost heads = view@.heads;
    let dag = store.dag();
    let vis = dag.ancestors_of(&view.heads);
    let mut of: Vec<CommitId> = Vec::new();
    of.push(target);
    let kids = dag.children_of(&of, &vis);
    proof {
        assert(of@ =~= seq![target]);
        assert forall|c: int, j: int|
            0 <= c < g.len() && 0 <= j < g[c].len() && vis@[c] && (#[trigger] g[c][j])
                < c implies vis@[g[c][j] as int] by {
            crate::plan::lemma_parent_visible(g, heads, c, j);
        }
    }
    let desc = dag.descendants_of(&kids, &vis);
    let rebase = selected(&desc);
    proof {
        let none = Seq::<CommitId>::empty();
        assert(children_planned(g, heads, of@, none, kids@));
        assert forall|c: CommitId| c < s0.len() implies #[trigger] rebase@.contains(c) == (visible(
            g,
            heads,
            c as int,
        ) && ancestor(s0, target, c) && c != target) by {
            assert(rebase@.contains(c as int as usize) == desc@[c as int]);
            lemma_rewritten_from_children(g, heads, of@, none, kids@, c as int);
            law_insert_after_rebases_descendants(s0, heads, target, c);
        }
        assert forall|i: int| 0 <= i < rebase@.len() implies #[trigger] rebase@[i] >= 1 by {
            assert(rebase@.contains(rebase@[i]));
            lemma_reaches_ordered(g, target as int, rebase@[i] as int);
        }
    }
    rebase
}

/// The view `view` carried over a rewrite: bookmarks, heads and working
/// copy point to what `table` gives for their old targets, `commit` is
/// visible, and it is checked out if `mode` says so.
pub fn carried(
    store: &Store,
    view: &RepoView,
    table: &Vec<CommitId>,
    commit: CommitId,
    mode: EditMode,
) -> (out: RepoView)
    requires
        store.wf(),
        view@.working_copy < table@.len(),
        all_below(view@.heads, table@.len() as int),
        crate::view::valid_bookmarks(view@.bookmarks, table@.len() as int),
        all_below(table@, store@.len() as int),
        commit < store@.len(),
    ensures
        valid_view(store@, out@),
        view_moved(store@, view@, table@, commit, mode, out@),
{
    let n = store.len();
    let bookmarks = move_bookmarks(&view.bookmarks, table, n);
    let mut candidates = map_ids(&view.heads, table);
    candidates.push(commit);
    let working_copy = match mode {
        EditMode::Edit => commit,
        EditMode::NoEdit => table[view.working_copy],
    };
    proof {
        assert forall|k: int| 0 <= k < candidates@.len() implies (#[trigger] candidates@[k])
            < n by {
            if k < view@.heads.len() {
                assert(candidates@[k] == table@[view@.heads[k] as int]);
            }
        }
        assert(candidates@ =~= mapped(view@.heads, table@).push(commit));
    }
    RepoView::assemble(store, &candidates, bookmarks, working_copy)
}

impl Repo {
    /// The commits of the store.
    pub closed spec fn commits(&self) -> Seq<CommitData> {
        self.store@
    }

    /// The parents of every operation.
    pub closed spec fn operations(&self) -> Seq<Seq<usize>> {
        self.ops@
    }

    /// The view that every operation produced.
    pub closed spec fn views(&self) -> Seq<ViewData> {
        Seq::new(self.views@.len(), |i: int| self.views@[i]@)
    }

    /// The operations that no operation follows, in ascending order.
    pub closed spec fn heads(&self) -> Seq<OpId> {
        self.heads@
    }

    /// The part of the invariant that concerns how the repository is laid
    /// out.
    pub closed spec fn inv(&self) -> bool {
        &&& self.store.wf()
        &&& self.ops.wf()
    }

    /// The invariant of the repository: the store is valid, the log starts
    /// with one operation without parents and every later operation has
    /// one, every view is a valid view of the store, and the log has a head.
    pub open spec fn wf(&self) -> bool {
        &&& self.inv()
        &&& valid_store(self.commits())
        &&& acyclic(self.operations())
        &&& self.operations().len() >= 1
        &&& self.views().len() == self.operations().len()
        &&& self.operations()[0].len() == 0
        &&& forall|i: int|
            1 <= i < self.operations().len() ==> (#[trigger] self.operations()[i]).len() >= 1
        &&& forall|i: int|
            0 <= i < self.views().len() ==> valid_view(self.commits(), #[trigger] self.views()[i])
        &&& self.heads().len() >= 1
        &&& strictly_ascending(self.heads())
        &&& all_below(self.heads(), self.operations().len() as int)
    }

    /// A repository that holds the root commit, checked out, and one
    /// operation.
    pub fn new() -> (repo: Repo)
        ensures
            repo.wf(),
            repo.commits() == seq![root_commit()],
            repo.operations() == seq![Seq::<usize>::empty()],
            repo.views() == seq![
                ViewData { heads: seq![0usize], bookmarks: Seq::empty(), working_copy: 0 },
            ],
            repo.heads() == seq![0usize],
            next_change(repo.commits()) == 1,
    {
        let store = Store::new();
        let mut ops = Dag::new();
        ops.push(Vec::new());
        let mut views: Vec<RepoView> = Vec::new();
        views.push(RepoView::initial());
        let mut heads: Vec<OpId> = Vec::new();
        heads.push(0);
        let repo = Repo { store, ops, views, heads };
        proof {
            let first = ViewData { heads: seq![0usize], bookmarks: Seq::empty(), working_copy: 0 };
            assert(repo.views()[0] == first);
            assert(repo.views() =~= seq![first]);
            assert(repo.operations() =~= seq![Seq::<usize>::empty()]);
            lemma_initial_view_valid(repo.commits());
        }
        repo
    }

    /// Whether another change can be started: whether a change id is left.
    /// Creating a commit asks for this.
    pub fn has_room(&self) -> (r: bool)
        requires
            self.wf(),
        ensures
            r == (next_change(self.commits()) < u64::MAX),
    {
        self.store.fresh_change() < u64::MAX
    }

    /// The commit store.
    pub fn store(&self) -> (store: &Store)
        requires
            self.wf(),
        ensures
            store.wf(),
            store@ == self.commits(),
    {
        &self.store
    }

    /// The number of operations in the log.
    pub fn operation_count(&self) -> (n: usize)
        requires
            self.wf(),
        ensures
            n == self.operations().len(),
            n >= 1,
    {
        self.ops.len()
    }

    /// The operations that no operation follows, in ascending order.
    pub fn head_operations(&self) -> (heads: &Vec<OpId>)
        requires
            self.wf(),
        ensures
            heads@ == self.heads(),
    {
        &self.heads
    }

    /// The view that an operation produced.
    pub fn view_of(&self, op: OpId) -> (view: &RepoView)
        requires
            self.wf(),
            op < self.operations().len(),
        ensures
            view@ == self.views()[op as int],
            valid_view(self.commits(), view@),
    {
        assert(self.views()[op as int] == self.views@[op as int]@);
        &self.views[op]
    }

    /// Whether the operation `a` came before `b` or is `b`.
    pub fn is_operation_ancestor(&self, a: OpId, b: OpId) -> (r: bool)
        requires
            self.wf(),
        ensures
            r == reaches(self.operations(), a as int, b as int),
    {
        self.ops.is_ancestor(a, b)
    }

    /// Whether two operations were made side by side.
    pub fn divergent(&self, a: OpId, b: OpId) -> (r: bool)
        requires
            self.wf(),
        ensures
            r == divergent_operations(self.operations(), a, b),
    {
        !self.ops.is_ancestor(a, b) && !self.ops.is_ancestor(b, a)
    }

    /// The latest operation that both `a` and `b` descend from.
    pub fn merge_base(&self, a: OpId, b: OpId) -> (base: OpId)
        requires
            self.wf(),
            a < self.operations().len(),
            b < self.operations().len(),
        ensures
            is_merge_base(self.operations(), a, b, base),
            base < self.operations().len(),
    {
        let ghost g = self.operations();
        let mut c: usize = if a < b {
            a
        } else {
            b
        };
        proof {
            assert forall|x: OpId| reaches(g, x as int, a as int) && reaches(
                g,
                x as int,
                b as int,
            ) implies x <= c by {
                lemma_reaches_ordered(g, x as int, a as int);
                lemma_reaches_ordered(g, x as int, b as int);
            }
        }
        while c > 0
            invariant
                self.wf(),
                g == self.operations(),
                c <= a,
                c <= b,
                a < g.len(),
                b < g.len(),
                forall|x: OpId|
                    #![trigger reaches(g, x as int, a as int)]
                    reaches(g, x as int, a as int) && reaches(g, x as int, b as int) ==> x <= c,
            decreases c,
        {
            if self.ops.is_ancestor(c, a) && self.ops.is_ancestor(c, b) {
                return c;
            }
            c -= 1;
        }
        proof {
            lemma_first_reaches(g, a as int);
            lemma_first_reaches(g, b as int);
        }
        0
    }

    /// Adds an operation to the log and leaves the heads as they are.
    fn append(&mut self, parents: Vec<OpId>, view: RepoView) -> (id: OpId)
        requires
            old(self).wf(),
            parents@.len() >= 1,
            all_below(parents@, old(self).operations().len() as int),
            valid_view(old(self).commits(), view@),
        ensures
            final(self).wf(),
            final(self).commits() == old(self).commits(),
            id == old(self).operations().len(),
            final(self).operations() == old(self).operations().push(parents@),
            final(self).views() == old(self).views().push(view@),
            final(self).heads() == old(self).heads(),
    {
        let ghost before = self.views();
        let ghost n = self.ops@.len();
        let id = self.ops.push(parents);
        self.views.push(view);
        proof {
            assert(self.views() =~= before.push(view@));
            assert forall|k: int| 0 <= k < self.views().len() implies valid_view(
                self.commits(),
                #[trigger] self.views()[k],
            ) by {
                if k < before.len() {
                    assert(self.views()[k] == before[k]);
                }
            }
            assert forall|k: int| 1 <= k < self.operations().len() implies (
            #[trigger] self.operations()[k]).len() >= 1 by {
                if k < n {
                    assert(self.operations()[k] == old(self).operations()[k]);
                }
            }
            assert(self.operations()[0] == old(self).operations()[0]);
        }
        id
    }

    /// Merges the operations that were made side by side, one after the
    /// other in ascending order, until the log has a single head, and
    /// returns that head. A log with a single head is left as it is.
    ///
    /// Each merge is an operation with two parents: what has been merged so
    /// far, and the next head. Its view is the merge of their views around
    /// the view of their merge base.
    pub fn reconcile(&mut self) -> (head: OpId)
        requires
            old(self).wf(),
        ensures
            final(self).wf(),
            final(self).commits() == old(self).commits(),
            final(self).heads() == seq![head],
            reconciled(
                old(self).commits(),
                old(self).operations(),
                old(self).views(),
                old(self).heads(),
                final(self).operations(),
                final(self).views(),
                head,
            ),
    {
        let ghost s = self.commits();
        let ghost g0 = self.operations();
        let ghost v0 = self.views();
        let ghost h0 = self.heads();
        let n0 = self.ops.len();
        let m = self.heads.len();
        let tops = crate::view::copy_ids(&self.heads);
        let mut acc: OpId = tops[0];
        let mut i: usize = 1;
        while i < m
            invariant
                self.wf(),
                s == self.commits(),
                tops@ == h0,
                m == h0.len(),
                n0 == g0.len(),
                1 <= i <= m,
                strictly_ascending(h0),
                all_below(h0, n0 as int),
                self.operations().len() == n0 + i - 1,
                acc == if i == 1 {
                    h0[0]
                } else {
                    (n0 + i - 2) as usize
                },
                forall|k: int| 0 <= k < n0 ==> self.operations()[k] == #[trigger] g0[k],
                forall|k: int| 0 <= k < n0 ==> self.views()[k] == #[trigger] v0[k],
                forall|j: int|
                    1 <= j < i ==> #[trigger] merged_at(
                        s,
                        h0,
                        n0 as int,
                        self.operations(),
                        self.views(),
                        j,
                    ),
            decreases m - i,
        {
            let other = tops[i];
            let ghost g = self.operations();
            let ghost v = self.views();
            let base = self.merge_base(acc, other);
            proof {
                assert(v[base as int] == self.views@[base as int]@);
                assert(v[acc as int] == self.views@[acc as int]@);
                assert(v[other as int] == self.views@[other as int]@);
            }
            let merged = merge_views(
                &self.store,
                &self.views[base],
                &self.views[acc],
                &self.views[other],
            );
            let mut parents: Vec<OpId> = Vec::new();
            parents.push(acc);
            parents.push(other);
            let id = self.append(parents, merged);
            proof {
                let g2 = self.operations();
                let v2 = self.views();
                assert(g2[id as int] == seq![acc, other]);
                assert forall|k: int| 0 <= k < g.len() implies g2[k] == #[trigger] g[k] by {}
                assert forall|j: int| 1 <= j < i + 1 implies #[trigger] merged_at(
                    s,
                    h0,
                    n0 as int,
                    g2,
                    v2,
                    j,
                ) by {
                    let k = n0 + j - 1;
                    if j < i {
                        assert(merged_at(s, h0, n0 as int, g, v, j));
                        assert(g2[k] == g[k]);
                        assert(v2[k] == v[k]);
                        assert forall|b: OpId| #[trigger]
                            is_merge_base(g2, g2[k][0], g2[k][1], b) implies view_merged(
                            s,
                            v2[b as int],
                            v2[g2[k][0] as int],
                            v2[g2[k][1] as int],
                            v2[k],
                        ) by {
                            lemma_merge_base_extended(g, g2, g[k][0], g[k][1], b);
                            lemma_reaches_ordered(g, b as int, g[k][0] as int);
                        }
                    } else {
                        assert forall|b: OpId| #[trigger]
                            is_merge_base(g2, g2[k][0], g2[k][1], b) implies view_merged(
                            s,
                            v2[b as int],
                            v2[g2[k][0] as int],
                            v2[g2[k][1] as int],
                            v2[k],
                        ) by {
                            lemma_merge_base_extended(g, g2, acc, other, b);
                            assert(b <= base && base <= b);
                        }
                    }
                }
            }
            acc = id;
            i += 1;
        }
        let mut heads: Vec<OpId> = Vec::new();
        heads.push(acc);
        self.heads = heads;
        proof {
            assert(self.heads() =~= seq![acc]);
        }
        acc
    }

    /// Creates the commit that `request` asks for, in the view of the
    /// operation `at`, and records it as one new operation that follows
    /// `at`. Where the request is refused nothing is written: the
    /// repository is left exactly as it was.
    pub fn create_commit(&mut self, at: OpId, request: &Request) -> (r: Result<Outcome, Error>)
        requires
            old(self).wf(),
            at < old(self).operations().len(),
            next_change(old(self).commits()) < u64::MAX,
        ensures
            final(self).wf(),
            match r {
                Err(e) => {
                    &&& *final(self) == *old(self)
                    &&& planning(
                        old(self).commits(),
                        old(self).views()[at as int],
                        texts_of(request.parents@),
                        texts_of(request.insert_after@),
                        texts_of(request.insert_before@),
                        request.edit,
                        request.no_edit,
                        Err(e),
                    )
                },
                Ok(out) => {
                    &&& planning(
                        old(self).commits(),
                        old(self).views()[at as int],
                        texts_of(request.parents@),
                        texts_of(request.insert_after@),
                        texts_of(request.insert_before@),
                        request.edit,
                        request.no_edit,
                        Ok((out.plan, out.mode)),
                    )
                    &&& written(
                        old(self).commits(),
                        final(self).commits(),
                        out.plan.parents@,
                        out.plan.children@,
                        out.plan.rebase@,
                        request.description@,
                        out.commit,
                        out.table@,
                    )
                    &&& out.operation == old(self).operations().len()
                    &&& final(self).operations() == old(self).operations().push(seq![at])
                    &&& final(self).views().len() == old(self).views().len() + 1
                    &&& forall|k: int|
                        0 <= k < old(self).views().len() ==> final(self).views()[k]
                            == #[trigger] old(self).views()[k]
                    &&& view_moved(
                        final(self).commits(),
                        old(self).views()[at as int],
                        out.table@,
                        out.commit,
                        out.mode,
                        final(self).views()[out.operation as int],
                    )
                    &&& heads_after(old(self).heads(), seq![at], out.operation, final(self).heads())
                },
            },
    {
        let ghost s0 = self.commits();
        let ghost views0 = self.views();
        let ghost v0 = views0[at as int];
        assert(v0 == self.views@[at as int]@);
        let planned = plan_new_commit(&self.store, &self.views[at], request);
        let (plan, mode) = match planned {
            Ok(made) => made,
            Err(e) => {
                return Err(e);
            },
        };
        let (commit, table) = write_plan(
            &mut self.store,
            &plan,
            request.description.clone(),
            Ghost(v0.heads),
        );
        let view = carried(&self.store, &self.views[at], &table, commit, mode);
        proof {
            assert(self.views() =~= views0);
            assert forall|k: int| 0 <= k < self.views().len() implies valid_view(
                self.commits(),
                #[trigger] self.views()[k],
            ) by {
                lemma_view_stays_valid(s0, self.commits(), views0[k]);
            }
        }
        let mut parents: Vec<OpId> = Vec::new();
        parents.push(at);
        assert(parents@ =~= seq![at]);
        let operation = self.record(parents, view);
        Ok(Outcome { commit, operation, plan, mode, table })
    }

    /// Gives the commit `target` the description `description`, in the view
    /// of the operation `at`, rewrites its visible descendants on top of the
    /// result, and records that as one new operation that follows `at`.
    /// The root commit cannot be rewritten.
    pub fn describe(&mut self, at: OpId, target: CommitId, description: String) -> (r: Result<
        Rewritten,
        Error,
    >)
        requires
            old(self).wf(),
            at < old(self).operations().len(),
            target < old(self).commits().len(),
        ensures
            final(self).wf(),
            match r {
                Err(e) => {
                    &&& target == ROOT
                    &&& e == (Error::ImmutableCommit { commit: ROOT })
                    &&& *final(self) == *old(self)
                },
                Ok(out) => {
                    &&& target != ROOT
                    &&& descendants_listed(
                        old(self).commits(),
                        old(self).views()[at as int].heads,
                        target,
                        out.rebase@,
                    )
                    &&& out.commit < final(self).commits().len()
                    &&& final(self).commits()[out.commit as int] == with_description(
                        old(self).commits(),
                        target,
                        description@,
                    )
                    &&& rewrites_done(
                        old(self).commits(),
                        stored(
                            old(self).commits(),
                            with_description(old(self).commits(), target, description@),
                        ),
                        final(self).commits(),
                        standing_for(old(self).commits().len(), target, out.commit),
                        out.rebase@,
                        Seq::empty(),
                        Seq::empty(),
                        out.commit,
                        out.table@,
                    )
                    &&& out.operation == old(self).operations().len()
                    &&& final(self).operations() == old(self).operations().push(seq![at])
                    &&& final(self).views().len() == old(self).views().len() + 1
                    &&& forall|k: int|
                        0 <= k < old(self).views().len() ==> final(self).views()[k]
                            == #[trigger] old(self).views()[k]
                    &&& view_moved(
                        final(self).commits(),
                        old(self).views()[at as int],
                        out.table@,
                        out.commit,
                        EditMode::NoEdit,
                        final(self).views()[out.operation as int],
                    )
                    &&& heads_after(old(self).heads(), seq![at], out.operation, final(self).heads())
                },
            },
    {
        if target == ROOT {
            return Err(Error::ImmutableCommit { commit: ROOT });
        }
        let ghost s0 = self.commits();
        let ghost g = graph(s0);
        let ghost views0 = self.views();
        let ghost v0 = views0[at as int];
        assert(v0 == self.views@[at as int]@);
        let n0 = self.store.len();
        let rebase = proper_descendants(&self.store, &self.views[at], target);
        proof {
            assert(!crate::store::refused(s0[target as int].parents));
        }
        let parents = copy_ids(self.store.parents_of(target));
        let tree = self.store.tree_of(target);
        let change = self.store.change_of(target);
        proof {
            assert forall|y: int| 0 <= y < parents@.len() implies (#[trigger] parents@[y]) < n0 by {
                assert(g[target as int][y] < target);
            }
        }
        let commit = self.store.intern(parents, tree, description, change);
        let ghost s1 = self.store@;
        proof {
            assert(s1 == stored(s0, with_description(s0, target, description@)));
            assert(s1[0] == root_commit());
            assert(commit != ROOT);
        }
        let mut start = identity(n0);
        start.set(target, commit);
        proof {
            assert(start@ =~= standing_for(s0.len(), target, commit));
        }
        let nothing: Vec<CommitId> = Vec::new();
        let table = rewrite_members(
            &mut self.store,
            &rebase,
            &nothing,
            &nothing,
            commit,
            start,
            Ghost(s0),
        );
        proof {
            assert(nothing@ =~= Seq::<CommitId>::empty());
            assert(self.store@[commit as int] == s1[commit as int]);
        }
        let view = carried(&self.store, &self.views[at], &table, commit, EditMode::NoEdit);
        proof {
            assert(self.views() =~= views0);
            assert forall|k: int| 0 <= k < s0.len() implies self.commits()[k] == #[trigger] s0[k] by {
                assert(self.commits()[k] == s1[k]);
            }
            assert forall|k: int| 0 <= k < self.views().len() implies valid_view(
                self.commits(),
                #[trigger] self.views()[k],
            ) by {
                lemma_view_stays_valid(s0, self.commits(), views0[k]);
            }
        }
        let mut after: Vec<OpId> = Vec::new();
        after.push(at);
        assert(after@ =~= seq![at]);
        let operation = self.record(after, view);
        Ok(Rewritten { commit, operation, rebase, table })
    }

    /// Points the bookmark `name` at `target` alone, in the view of the
    /// operation `at`, and records that as one new operation that follows
    /// `at`. This is how a conflicted bookmark is settled.
    pub fn set_bookmark(&mut self, at: OpId, name: &str, target: CommitId) -> (id: OpId)
        requires
            old(self).wf(),
            at < old(self).operations().len(),
            target < old(self).commits().len(),
        ensures
            final(self).wf(),
            final(self).commits() == old(self).commits(),
            id == old(self).operations().len(),
            final(self).operations() == old(self).operations().push(seq![at]),
            final(self).views().len() == old(self).views().len() + 1,
            forall|k: int|
                0 <= k < old(self).views().len() ==> final(self).views()[k]
                    == #[trigger] old(self).views()[k],
            bookmark_set(
                old(self).views()[at as int].bookmarks,
                name@,
                target,
                final(self).views()[id as int].bookmarks,
            ),
            final(self).views()[id as int].working_copy
                == old(self).views()[at as int].working_copy,
            heads_among(
                graph(final(self).commits()),
                anchors(
                    old(self).views()[at as int].heads,
                    final(self).views()[id as int].bookmarks,
                    final(self).views()[id as int].working_copy,
                ),
                final(self).views()[id as int].heads,
            ),
            heads_after(old(self).heads(), seq![at], id, final(self).heads()),
    {
        let ghost v0 = self.views()[at as int];
        assert(v0 == self.views@[at as int]@);
        let n = self.store.len();
        let bookmarks = with_bookmark(&self.views[at].bookmarks, name, target, n);
        let candidates = copy_ids(&self.views[at].heads);
        let view = RepoView::assemble(
            &self.store,
            &candidates,
            bookmarks,
            self.views[at].working_copy,
        );
        let mut parents: Vec<OpId> = Vec::new();
        parents.push(at);
        assert(parents@ =~= seq![at]);
        self.record(parents, view)
    }

    /// Adds an operation with the given parents and view to the log.
    pub fn record(&mut self, parents: Vec<OpId>, view: RepoView) -> (id: OpId)
        requires
            old(self).wf(),
            parents@.len() >= 1,
            all_below(parents@, old(self).operations().len() as int),
            valid_view(old(self).commits(), view@),
        ensures
            final(self).wf(),
            final(self).commits() == old(self).commits(),
            id == old(self).operations().len(),
            final(self).operations() == old(self).operations().push(parents@),
            final(self).views() == old(self).views().push(view@),
            heads_after(old(self).heads(), parents@, id, final(self).heads()),
    {
        let ghost before = self.views();
        let ghost old_heads = self.heads@;
        let ghost n = self.ops@.len();
        let mut heads: Vec<OpId> = Vec::new();
        let mut i: usize = 0;
        while i < self.heads.len()
            invariant
                0 <= i <= self.heads.len(),
                self.heads@ == old_heads,
                strictly_ascending(old_heads),
                all_below(old_heads, n as int),
                strictly_ascending(heads@),
                all_below(heads@, n as int),
                forall|x: OpId|
                    #[trigger] heads@.contains(x) == (old_heads.subrange(0, i as int).contains(x)
                        && !parents@.contains(x)),
            decreases self.heads.len() - i,
        {
            let h = self.heads[i];
            let ghost sofar = heads@;
            proof {
                assert(old_heads.subrange(0, i + 1) =~= old_heads.subrange(0, i as int).push(h));
            }
            if !contains(&parents, h) {
                proof {
                    assert forall|k: int| 0 <= k < sofar.len() implies sofar[k] < h by {
                        assert(sofar.contains(sofar[k]));
                        let w = choose|w: int|
                            0 <= w < i && old_heads.subrange(0, i as int)[w] == sofar[k];
                        assert(old_heads[w] < old_heads[i as int]);
                    }
                }
                heads.push(h);
            }
            proof {
                let now = old_heads.subrange(0, i + 1);
                let was = old_heads.subrange(0, i as int);
                assert forall|x: OpId| #[trigger] heads@.contains(x) == (now.contains(x)
                    && !parents@.contains(x)) by {
                    if heads@.contains(x) {
                        let w = choose|w: int| 0 <= w < heads@.len() && heads@[w] == x;
                        if w < sofar.len() {
                            assert(sofar.contains(x));
                            let v = choose|v: int| 0 <= v < was.len() && was[v] == x;
                            assert(now[v] == x);
                        } else {
                            assert(now[i as int] == x);
                        }
                    }
                    if now.contains(x) && !parents@.contains(x) {
                        let v = choose|v: int| 0 <= v < now.len() && now[v] == x;
                        if v < i {
                            assert(was[v] == x);
                            assert(sofar.contains(x));
                            let w = choose|w: int| 0 <= w < sofar.len() && sofar[w] == x;
                            assert(heads@[w] == x);
                        } else {
                            assert(heads@[sofar.len() as int] == x);
                        }
                    }
                }
            }
            i += 1;
        }
        proof {
            assert(old_heads.subrange(0, old_heads.len() as int) =~= old_heads);
        }
        let ghost kept_heads = heads@;
        let ghost given = parents@;
        let id = self.append(parents, view);
        heads.push(id);
        self.heads = heads;
        proof {
            assert forall|x: OpId| #[trigger] self.heads@.contains(x) == (x == id || (
            old_heads.contains(x) && !parents@.contains(x))) by {
                if self.heads@.contains(x) {
                    let w = choose|w: int| 0 <= w < self.heads@.len() && self.heads@[w] == x;
                    if w < kept_heads.len() {
                        assert(kept_heads.contains(x));
                    }
                }
                if old_heads.contains(x) && !given.contains(x) {
                    assert(kept_heads.contains(x));
                    let w = choose|w: int| 0 <= w < kept_heads.len() && kept_heads[w] == x;
                    assert(self.heads@[w] == x);
                }
                if x == id {
                    assert(self.heads@[kept_heads.len() as int] == x);
                }
            }
        }
        id
    }
}

} // verus!
