//! Writing a plan into the store: the new commit first, then every commit
//! that must move on top of it, parents before children. A rewritten commit
//! keeps its change id, tree and description; only its parents change.

use crate::dag::{
    all_below, contains, lemma_parent_reaches, lemma_reaches_ordered, lemma_reaches_transitive,
    reaches, strictly_ascending,
};
use crate::plan::{valid_plan, Plan};
use crate::view::copy_ids;
use crate::store::{
    graph, next_change, refused, root_commit, stored, valid_store, CommitData, CommitId, Store,
    ROOT,
};
use vstd::prelude::*;

verus! {

/// The parents `ps` with those in `dropped` left out and every other one
/// replaced by what `table` gives for it.
pub open spec fn reparented(ps: Seq<CommitId>, dropped: Seq<CommitId>, table: Seq<CommitId>) -> Seq<
    CommitId,
>
    decreases ps.len(),
{
    if ps.len() == 0 {
        Seq::empty()
    } else {
        let rest = reparented(ps.drop_last(), dropped, table);
        if dropped.contains(ps.last()) {
            rest
        } else {
            rest.push(table[ps.last() as int])
        }
    }
}

/// The parents of a rewritten commit. A child of the new commit loses the
/// parents that the new commit took over and gets the new commit as its last
/// parent; every rewritten commit has its rewritten parents replaced by
/// their rewrites.
pub open spec fn rewritten_parents(
    ps: Seq<CommitId>,
    is_child: bool,
    new_parents: Seq<CommitId>,
    table: Seq<CommitId>,
    new_commit: CommitId,
) -> Seq<CommitId> {
    if is_child {
        reparented(ps, new_parents, table).push(new_commit)
    } else {
        reparented(ps, Seq::empty(), table)
    }
}

/// What the store holds after a plan was written into the store `before`:
/// the old commits as they were, the new commit, and for every commit of the
/// rebase list its rewrite, found through `table`; a commit that was not
/// rewritten is its own entry in `table`.
pub open spec fn written(
    before: Seq<CommitData>,
    after: Seq<CommitData>,
    parents: Seq<CommitId>,
    children: Seq<CommitId>,
    rebase: Seq<CommitId>,
    description: Seq<char>,
    new_commit: CommitId,
    table: Seq<CommitId>,
) -> bool {
    &&& before.len() <= after.len()
    &&& forall|i: int| 0 <= i < before.len() ==> after[i] == #[trigger] before[i]
    &&& new_commit < after.len()
    &&& new_commit != ROOT
    &&& after[new_commit as int] == (CommitData {
        parents,
        tree: before[parents[0] as int].tree,
        description,
        change_id: next_change(before) as u64,
    })
    &&& table.len() == before.len()
    &&& all_below(table, after.len() as int)
    &&& forall|c: CommitId| c < before.len() && !rebase.contains(c) ==> #[trigger] table[c as int] == c
    &&& forall|i: int|
        0 <= i < rebase.len() ==> after[table[#[trigger] rebase[i] as int] as int] == (CommitData {
            parents: rewritten_parents(
                before[rebase[i] as int].parents,
                children.contains(rebase[i]),
                parents,
                table,
                new_commit,
            ),
            ..before[rebase[i] as int]
        })
    &&& forall|j: int|
        before.len() <= j < after.len() ==> j == new_commit || #[trigger] stands_for_some(
            rebase,
            table,
            j,
        )
}

/// `j` stands for one of the first `upto` members of `rebase`.
pub open spec fn stands_for(rebase: Seq<CommitId>, table: Seq<CommitId>, upto: int, j: int) -> bool {
    exists|i: int| 0 <= i < upto && #[trigger] table[rebase[i] as int] == j
}

/// `j` is the rewrite of a member of `rebase`.
pub open spec fn stands_for_some(rebase: Seq<CommitId>, table: Seq<CommitId>, j: int) -> bool {
    stands_for(rebase, table, rebase.len() as int, j)
}

/// Two tables that agree on the parents give the same rewritten parents.
proof fn lemma_reparented_agrees(
    ps: Seq<CommitId>,
    dropped: Seq<CommitId>,
    t1: Seq<CommitId>,
    t2: Seq<CommitId>,
)
    requires
        forall|i: int| 0 <= i < ps.len() ==> t1[#[trigger] ps[i] as int] == t2[ps[i] as int],
    ensures
        reparented(ps, dropped, t1) == reparented(ps, dropped, t2),
    decreases ps.len(),
{
    if ps.len() > 0 {
        let rest = ps.drop_last();
        assert forall|i: int| 0 <= i < rest.len() implies t1[#[trigger] rest[i] as int]
            == t2[rest[i] as int] by {
            assert(rest[i] == ps[i]);
        }
        lemma_reparented_agrees(rest, dropped, t1, t2);
        assert(ps.last() == ps[ps.len() - 1]);
    }
}

/// A commit of the rebase list is not the root and comes after no commit
/// that it descends from.
proof fn lemma_rebased_not_root(
    s: Seq<CommitData>,
    heads: Seq<CommitId>,
    parents: Seq<CommitId>,
    children: Seq<CommitId>,
    rebase: Seq<CommitId>,
    i: int,
)
    requires
        valid_store(s),
        valid_plan(s, heads, parents, children, rebase),
        0 <= i < rebase.len(),
    ensures
        rebase[i] >= 1,
{
    let g = graph(s);
    let c = rebase[i];
    assert(rebase.contains(c));
    let k = choose|k: int| 0 <= k < children.len() && reaches(g, #[trigger] children[k] as int, c as int);
    lemma_reaches_ordered(g, children[k] as int, c as int);
    assert(children.contains(children[k]));
}

/// The rewritten parents of `ps`.
fn rewrite_parents(
    ps: &Vec<CommitId>,
    is_child: bool,
    new_parents: &Vec<CommitId>,
    table: &Vec<CommitId>,
    new_commit: CommitId,
) -> (out: Vec<CommitId>)
    requires
        all_below(ps@, table@.len() as int),
    ensures
        out@ == rewritten_parents(ps@, is_child, new_parents@, table@, new_commit),
{
    let ghost dropped = if is_child {
        new_parents@
    } else {
        Seq::<CommitId>::empty()
    };
    let mut out: Vec<CommitId> = Vec::new();
    let mut j: usize = 0;
    while j < ps.len()
        invariant
            0 <= j <= ps.len(),
            all_below(ps@, table@.len() as int),
            dropped == if is_child {
                new_parents@
            } else {
                Seq::<CommitId>::empty()
            },
            out@ == reparented(ps@.subrange(0, j as int), dropped, table@),
        decreases ps.len() - j,
    {
        let p = ps[j];
        proof {
            assert(ps@.subrange(0, j + 1).drop_last() =~= ps@.subrange(0, j as int));
        }
        if !(is_child && contains(new_parents, p)) {
            out.push(table[p]);
        }
        j += 1;
    }
    proof {
        assert(ps@.subrange(0, ps@.len() as int) =~= ps@);
    }
    if is_child {
        out.push(new_commit);
    }
    out
}

/// Every member of the rewritten parents is what `table` gives for a parent
/// that was kept.
proof fn lemma_reparented_members(
    ps: Seq<CommitId>,
    dropped: Seq<CommitId>,
    table: Seq<CommitId>,
    x: int,
) -> (i: int)
    requires
        0 <= x < reparented(ps, dropped, table).len(),
    ensures
        0 <= i < ps.len(),
        !dropped.contains(ps[i]),
        reparented(ps, dropped, table)[x] == table[ps[i] as int],
    decreases ps.len(),
{
    let rest = reparented(ps.drop_last(), dropped, table);
    if !dropped.contains(ps.last()) && x == rest.len() {
        ps.len() - 1
    } else {
        lemma_reparented_members(ps.drop_last(), dropped, table, x)
    }
}

/// The rewritten parents are as many as the parents that were kept.
proof fn lemma_reparented_len(ps: Seq<CommitId>, table: Seq<CommitId>)
    ensures
        reparented(ps, Seq::empty(), table).len() == ps.len(),
    decreases ps.len(),
{
    if ps.len() > 0 {
        lemma_reparented_len(ps.drop_last(), table);
    }
}

/// Where nothing is dropped, every parent is replaced by what `table` gives
/// for it.
pub proof fn lemma_reparented_all(ps: Seq<CommitId>, table: Seq<CommitId>, j: int)
    requires
        0 <= j < ps.len(),
    ensures
        reparented(ps, Seq::empty(), table).len() == ps.len(),
        reparented(ps, Seq::empty(), table)[j] == table[ps[j] as int],
    decreases ps.len(),
{
    lemma_reparented_len(ps, table);
    lemma_reparented_len(ps.drop_last(), table);
    if j < ps.len() - 1 {
        lemma_reparented_all(ps.drop_last(), table, j);
    }
}

/// After a plan was written, every rewritten commit descends from the new
/// commit: a child has it as a parent, and every other rewritten commit has
/// a rewritten parent.
pub proof fn law_rewrites_descend_from_new_commit(
    before: Seq<CommitData>,
    after: Seq<CommitData>,
    heads: Seq<CommitId>,
    parents: Seq<CommitId>,
    children: Seq<CommitId>,
    rebase: Seq<CommitId>,
    description: Seq<char>,
    new_commit: CommitId,
    table: Seq<CommitId>,
    i: int,
)
    requires
        valid_store(before),
        valid_store(after),
        valid_plan(before, heads, parents, children, rebase),
        written(before, after, parents, children, rebase, description, new_commit, table),
        0 <= i < rebase.len(),
    ensures
        reaches(graph(after), new_commit as int, table[rebase[i] as int] as int),
    decreases rebase[i],
{
    let g = graph(before);
    let h = graph(after);
    let c = rebase[i];
    let r = table[c as int];
    let ps = before[c as int].parents;
    assert(h[r as int] == after[r as int].parents);
    if children.contains(c) {
        let kept = reparented(ps, parents, table);
        assert(h[r as int][kept.len() as int] == new_commit);
        lemma_parent_reaches(h, r as int, kept.len() as int);
    } else {
        assert(rebase.contains(c));
        let x = choose|x: int| 0 <= x < children.len() && reaches(g, #[trigger] children[x] as int, c as int);
        let k = children[x];
        assert(children.contains(k));
        let j = choose|j: int|
            0 <= j < g[c as int].len() && (#[trigger] g[c as int][j]) < c && reaches(
                g,
                k as int,
                g[c as int][j] as int,
            );
        let p = g[c as int][j];
        crate::plan::lemma_parent_visible(g, heads, c as int, j);
        assert(reaches(g, children[x] as int, p as int));
        assert(rebase.contains(p));
        let w = choose|w: int| 0 <= w < rebase.len() && rebase[w] == p;
        law_rewrites_descend_from_new_commit(
            before,
            after,
            heads,
            parents,
            children,
            rebase,
            description,
            new_commit,
            table,
            w,
        );
        lemma_reparented_all(ps, table, j);
        assert(h[r as int][j] == table[p as int]);
        lemma_parent_reaches(h, r as int, j);
        lemma_reaches_transitive(h, new_commit as int, table[p as int] as int, r as int);
    }
}

/// What rewriting the commits of `rebase` leaves. The commits are those of
/// the store `origin`; the store held `before` when the rewriting began and
/// holds `after` now. Every commit of `rebase` has its rewrite, found
/// through `table`; for every other commit `table` says what `start` said;
/// and nothing but rewrites was added to the store.
pub open spec fn rewrites_done(
    origin: Seq<CommitData>,
    before: Seq<CommitData>,
    after: Seq<CommitData>,
    start: Seq<CommitId>,
    rebase: Seq<CommitId>,
    children: Seq<CommitId>,
    new_parents: Seq<CommitId>,
    new_commit: CommitId,
    table: Seq<CommitId>,
) -> bool {
    &&& before.len() <= after.len()
    &&& forall|i: int| 0 <= i < before.len() ==> after[i] == #[trigger] before[i]
    &&& table.len() == start.len()
    &&& all_below(table, after.len() as int)
    &&& forall|c: CommitId|
        c < start.len() && !rebase.contains(c) ==> #[trigger] table[c as int] == start[c as int]
    &&& forall|i: int|
        0 <= i < rebase.len() ==> after[table[#[trigger] rebase[i] as int] as int] == (CommitData {
            parents: rewritten_parents(
                origin[rebase[i] as int].parents,
                children.contains(rebase[i]),
                new_parents,
                table,
                new_commit,
            ),
            ..origin[rebase[i] as int]
        })
    &&& forall|j: int|
        before.len() <= j < after.len() ==> #[trigger] stands_for_some(rebase, table, j)
}

/// Rewrites the commits of `members`, parents before children, and returns
/// the table of what stands for what. `start` says what stands for the
/// commits that were rewritten before; a member that is among
/// `children_of_new` loses the parents in `new_parents` and gets
/// `new_commit` as its last parent.
#[verifier::loop_isolation(false)]
pub fn rewrite_members(
    store: &mut Store,
    members: &Vec<CommitId>,
    children_of_new: &Vec<CommitId>,
    new_parents: &Vec<CommitId>,
    new_commit: CommitId,
    start: Vec<CommitId>,
    Ghost(origin): Ghost<Seq<CommitData>>,
) -> (table: Vec<CommitId>)
    requires
        old(store).wf(),
        1 <= origin.len() <= old(store)@.len(),
        forall|i: int| 0 <= i < origin.len() ==> old(store)@[i] == #[trigger] origin[i],
        start@.len() == origin.len(),
        all_below(start@, old(store)@.len() as int),
        start@[0] == 0,
        forall|c: int| 1 <= c < start@.len() ==> #[trigger] start@[c] >= 1,
        strictly_ascending(members@),
        all_below(members@, origin.len() as int),
        forall|i: int| 0 <= i < members@.len() ==> #[trigger] members@[i] >= 1,
        forall|i: int|
            0 <= i < members@.len() && children_of_new@.contains(#[trigger] members@[i])
                && origin[members@[i] as int].parents.contains(ROOT) ==> new_parents@.contains(
                ROOT,
            ),
        new_commit < old(store)@.len(),
        new_commit != ROOT,
    ensures
        final(store).wf(),
        rewrites_done(
            origin,
            old(store)@,
            final(store)@,
            start@,
            members@,
            children_of_new@,
            new_parents@,
            new_commit,
            table@,
        ),
        table@[0] == 0,
        forall|c: int| 1 <= c < table@.len() ==> #[trigger] table@[c] >= 1,
{
    let ghost s0 = origin;
    let ghost first = store@.len();
    let ghost begin = store@;
    let ghost parents = new_parents@;
    let ghost children = children_of_new@;
    let ghost rebase = members@;
    let ghost n0 = origin.len();
    let mut table = start;
    let mut idx: usize = 0;
    while idx < members.len()
        invariant
            store.wf(),
            0 <= idx <= rebase.len(),
            first <= store@.len(),
            forall|i: int| 0 <= i < first ==> store@[i] == #[trigger] begin[i],
            forall|i: int| 0 <= i < n0 ==> store@[i] == #[trigger] s0[i],
            table@.len() == n0,
            all_below(table@, store@.len() as int),
            table@[0] == 0,
            forall|c: int| 1 <= c < n0 ==> #[trigger] table@[c] >= 1,
            forall|c: CommitId|
                c < n0 && !rebase.subrange(0, idx as int).contains(c) ==> #[trigger] table@[c as int]
                    == start@[c as int],
            forall|i: int|
                0 <= i < idx ==> store@[table@[#[trigger] rebase[i] as int] as int] == (CommitData {
                    parents: rewritten_parents(
                        s0[rebase[i] as int].parents,
                        children.contains(rebase[i]),
                        parents,
                        table@,
                        new_commit,
                    ),
                    ..s0[rebase[i] as int]
                }),
            forall|j: int|
                first <= j < store@.len() ==> #[trigger] stands_for(rebase, table@, idx as int, j),
        decreases rebase.len() - idx,
    {
        let c = members[idx];
        let ghost old_table = table@;
        let ghost before = store@;
        proof {
            assert(rebase[idx as int] >= 1);
            assert(s0[c as int] == store@[c as int]);
        }
        let is_child = contains(children_of_new, c);
        let ps = copy_ids(store.parents_of(c));
        proof {
            assert forall|y: int| 0 <= y < ps@.len() implies (#[trigger] ps@[y]) < n0 by {
                assert(graph(store@)[c as int][y] < c);
            }
        }
        let new_ps = rewrite_parents(&ps, is_child, new_parents, &table, new_commit);
        let tree = store.tree_of(c);
        let text = store.description_of(c).clone();
        let change = store.change_of(c);
        proof {
            let dropped = if is_child {
                parents
            } else {
                Seq::<CommitId>::empty()
            };
            let kept = reparented(ps@, dropped, old_table);
            assert(s0[c as int].parents == ps@);
            assert forall|x: int| 0 <= x < kept.len() implies (#[trigger] kept[x]) < before.len()
                && (kept[x] == ROOT ==> ps@.contains(ROOT) && !dropped.contains(ROOT)) by {
                let i = lemma_reparented_members(ps@, dropped, old_table, x);
                assert(ps@[i] < c);
                if kept[x] == ROOT {
                    assert(ps@[i] == ROOT);
                }
            }
            assert(all_below(new_ps@, before.len() as int));
            // The backend accepts the rewritten parents.
            assert(!refused(s0[c as int].parents));
            if is_child {
                if new_ps@.len() >= 2 && new_ps@.contains(ROOT) {
                    let x = choose|x: int| 0 <= x < new_ps@.len() && new_ps@[x] == ROOT;
                    assert(x < kept.len());
                    assert(kept[x] == ROOT);
                    assert(s0[rebase[idx as int] as int].parents.contains(ROOT));
                }
            } else {
                lemma_reparented_len(ps@, old_table);
                if new_ps@.len() >= 2 && new_ps@.contains(ROOT) {
                    let x = choose|x: int| 0 <= x < new_ps@.len() && new_ps@[x] == ROOT;
                    assert(kept[x] == ROOT);
                }
            }
            assert(!refused(new_ps@));
        }
        let id = store.intern(new_ps, tree, text, change);
        table.set(c, id);
        proof {
            let after = store@;
            let data = CommitData {
                parents: rewritten_parents(
                    s0[c as int].parents,
                    children.contains(c),
                    parents,
                    old_table,
                    new_commit,
                ),
                ..s0[c as int]
            };
            assert(after == stored(before, data));
            assert(after[id as int] == data);
            assert(after[0] == root_commit());
            assert(id != ROOT);
            assert(rebase.subrange(0, idx + 1) =~= rebase.subrange(0, idx as int).push(c));
            assert forall|x: CommitId|
                x < n0 && !rebase.subrange(0, idx + 1).contains(x) implies #[trigger] table@[x as int]
                == start@[x as int] by {
                if rebase.subrange(0, idx as int).contains(x) {
                    let w = choose|w: int|
                        0 <= w < idx && rebase.subrange(0, idx as int)[w] == x;
                    assert(rebase.subrange(0, idx + 1)[w] == x);
                }
                assert(rebase.subrange(0, idx + 1)[idx as int] == c);
            }
            assert forall|i: int| 0 <= i < idx + 1 implies after[table@[#[trigger] rebase[i] as int] as int]
                == (CommitData {
                parents: rewritten_parents(
                    s0[rebase[i] as int].parents,
                    children.contains(rebase[i]),
                    parents,
                    table@,
                    new_commit,
                ),
                ..s0[rebase[i] as int]
            }) by {
                let r = rebase[i];
                let rps = s0[r as int].parents;
                assert(graph(s0)[r as int] == rps);
                assert forall|y: int| 0 <= y < rps.len() implies old_table[#[trigger] rps[y] as int]
                    == table@[rps[y] as int] by {
                    assert(after[r as int] == s0[r as int]);
                    assert(graph(after)[r as int][y] < r);
                }
                lemma_reparented_agrees(rps, parents, old_table, table@);
                lemma_reparented_agrees(rps, Seq::empty(), old_table, table@);
                if i < idx {
                    assert(table@[r as int] == old_table[r as int]);
                    assert(after[old_table[r as int] as int] == before[old_table[r as int] as int]);
                }
            }
            assert forall|j: int| first <= j < after.len() implies #[trigger] stands_for(
                rebase,
                table@,
                idx + 1,
                j,
            ) by {
                if j < before.len() {
                    assert(stands_for(rebase, old_table, idx as int, j));
                    let i = choose|i: int|
                        0 <= i < idx && #[trigger] old_table[rebase[i] as int] == j;
                    assert(table@[rebase[i] as int] == j);
                } else {
                    assert(table@[rebase[idx as int] as int] == j);
                }
            }
        }
        idx += 1;
    }
    proof {
        assert(rebase.subrange(0, rebase.len() as int) =~= rebase);
        assert forall|c: CommitId| c < n0 && !rebase.contains(c) implies #[trigger] table@[c as int]
            == start@[c as int] by {}
    }
    table
}

/// Writes the new commit of a plan and rewrites every commit of its rebase
/// list. Returns the id of the new commit and the table that gives, for each
/// commit that was in the store, the commit that stands for it now.
pub fn write_plan(store: &mut Store, plan: &Plan, description: String, Ghost(heads): Ghost<
    Seq<CommitId>,
>) -> (r: (CommitId, Vec<CommitId>))
    requires
        old(store).wf(),
        valid_plan(old(store)@, heads, plan.parents@, plan.children@, plan.rebase@),
        next_change(old(store)@) < u64::MAX,
    ensures
        final(store).wf(),
        written(
            old(store)@,
            final(store)@,
            plan.parents@,
            plan.children@,
            plan.rebase@,
            description@,
            r.0,
            r.1@,
        ),
{
    let ghost s0 = store@;
    let ghost parents = plan.parents@;
    let ghost children = plan.children@;
    let ghost rebase = plan.rebase@;
    let n0 = store.len();
    let tree = store.tree_of(plan.parents[0]);
    let change = store.fresh_change();
    let new_commit = store.intern(copy_ids(&plan.parents), tree, description, change);
    let ghost s1 = store@;
    let ghost new_data = CommitData {
        parents,
        tree: s0[parents[0] as int].tree,
        description: description@,
        change_id: next_change(s0) as u64,
    };
    proof {
        assert(s1 == stored(s0, new_data));
        assert(s1[0] == root_commit());
    }
    let start = identity(n0);
    proof {
        assert forall|i: int| 0 <= i < rebase.len() implies #[trigger] rebase[i] >= 1 by {
            lemma_rebased_not_root(s0, heads, parents, children, rebase, i);
        }
        assert forall|i: int|
            0 <= i < rebase.len() && children.contains(#[trigger] rebase[i])
                && s0[rebase[i] as int].parents.contains(ROOT) implies parents.contains(ROOT) by {
            let k = choose|k: int| 0 <= k < children.len() && children[k] == rebase[i];
            assert(s0[children[k] as int].parents.contains(ROOT));
        }
    }
    let table = rewrite_members(
        store,
        &plan.rebase,
        &plan.children,
        &plan.parents,
        new_commit,
        start,
        Ghost(s0),
    );
    proof {
        let after = store@;
        assert(after[new_commit as int] == s1[new_commit as int]);
        assert forall|i: int| 0 <= i < s0.len() implies after[i] == #[trigger] s0[i] by {
            assert(after[i] == s1[i]);
        }
        assert forall|j: int| s0.len() <= j < after.len() implies j == new_commit
            || #[trigger] stands_for_some(rebase, table@, j) by {
            if j < s1.len() {
                assert(j == new_commit);
            }
        }
    }
    (new_commit, table)
}

/// The table in which every commit stands for itself.
pub fn identity(n: usize) -> (table: Vec<CommitId>)
    ensures
        table@.len() == n,
        forall|i: int| 0 <= i < n ==> table@[i] == i,
{
    let mut table: Vec<CommitId> = Vec::new();
    let mut t: usize = 0;
    while t < n
        invariant
            0 <= t <= n,
            table@.len() == t,
            forall|i: int| 0 <= i < t ==> table@[i] == i,
        decreases n - t,
    {
        table.push(t);
        t += 1;
    }
    table
}

} // verus!
