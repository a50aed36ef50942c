//! Planning the insertion of a new commit: which parents it gets, which
//! commits are put on top of it, and which descendants must be rewritten.
//! Every refusal is found here, before anything is written.

use crate::dag::{
    acyclic, all_below, contains, is_parent, lemma_parent_reaches, lemma_reaches_ordered,
    lemma_reaches_transitive, reached_from_any, reaches, selected, strictly_ascending, Dag,
};
use crate::error::{Error, UsageProblem};
use crate::store::{ancestor, graph, refused, valid_store, CommitData, CommitId, Store, ROOT};
use crate::view::{copy_ids, sorted_set, valid_view, visible, RepoView, ViewData};
use vstd::prelude::*;

verus! {

/// What to do with the working copy once the new commit exists.
#[derive(Clone, Copy, Debug, PartialEq, Eq, Structural)]
pub enum EditMode {
    /// Check the new commit out.
    Edit,
    /// Leave the working copy where it is.
    NoEdit,
}

/// The plan for one new commit.
pub struct Plan {
    /// The parents of the new commit, in order.
    pub parents: Vec<CommitId>,
    /// The commits that get the new commit as a parent, in ascending order.
    pub children: Vec<CommitId>,
    /// The commits to rewrite: the children and all their visible
    /// descendants, parents before children.
    pub rebase: Vec<CommitId>,
}

/// `acc`, followed by the members of `more` that are not yet in it.
pub open spec fn with_new(acc: Seq<CommitId>, more: Seq<CommitId>) -> Seq<CommitId>
    decreases more.len(),
{
    if more.len() == 0 {
        acc
    } else {
        let sofar = with_new(acc, more.drop_last());
        if sofar.contains(more.last()) {
            sofar
        } else {
            sofar.push(more.last())
        }
    }
}

/// The parents of the members of `ids`, each once, in the order in which
/// they are first met.
pub open spec fn parents_of_all(g: Seq<Seq<usize>>, ids: Seq<CommitId>) -> Seq<CommitId>
    decreases ids.len(),
{
    if ids.len() == 0 {
        Seq::empty()
    } else {
        with_new(parents_of_all(g, ids.drop_last()), g[ids.last() as int])
    }
}

/// The parents that the new commit gets. With `insert_after` they are those
/// targets; with `insert_before` alone they are the parents of those targets;
/// otherwise they are the positional parents, or the working copy if there
/// are none.
pub open spec fn planned_parents(
    g: Seq<Seq<usize>>,
    working_copy: CommitId,
    parents: Seq<CommitId>,
    insert_after: Seq<CommitId>,
    insert_before: Seq<CommitId>,
) -> Seq<CommitId> {
    if insert_after.len() > 0 {
        insert_after
    } else if insert_before.len() > 0 {
        parents_of_all(g, insert_before)
    } else if parents.len() > 0 {
        parents
    } else {
        seq![working_copy]
    }
}

/// Whether `c` gets the new commit as a parent. With `insert_before` these
/// are its targets; with `insert_after` alone they are the visible children
/// of its targets.
pub open spec fn planned_child(
    g: Seq<Seq<usize>>,
    heads: Seq<CommitId>,
    insert_after: Seq<CommitId>,
    insert_before: Seq<CommitId>,
    c: CommitId,
) -> bool {
    if insert_before.len() > 0 {
        insert_before.contains(c)
    } else {
        visible(g, heads, c as int) && exists|p: int|
            0 <= p < insert_after.len() && is_parent(g, #[trigger] insert_after[p] as int, c as int)
    }
}

/// Whether `c` must be rewritten: it is visible and descends from a commit
/// that gets the new commit as a parent.
pub open spec fn rewritten(
    g: Seq<Seq<usize>>,
    heads: Seq<CommitId>,
    insert_after: Seq<CommitId>,
    insert_before: Seq<CommitId>,
    c: int,
) -> bool {
    visible(g, heads, c) && exists|k: CommitId|
        k < g.len() && #[trigger] planned_child(g, heads, insert_after, insert_before, k)
            && reaches(g, k as int, c)
}

/// `children` lists, in ascending order, exactly the planned children.
pub open spec fn children_planned(
    g: Seq<Seq<usize>>,
    heads: Seq<CommitId>,
    insert_after: Seq<CommitId>,
    insert_before: Seq<CommitId>,
    children: Seq<CommitId>,
) -> bool {
    &&& strictly_ascending(children)
    &&& all_below(children, g.len() as int)
    &&& forall|c: CommitId|
        c < g.len() ==> #[trigger] children.contains(c) == planned_child(
            g,
            heads,
            insert_after,
            insert_before,
            c,
        )
}

/// `rebase` lists, in ascending order, exactly the commits to rewrite.
pub open spec fn rebase_planned(
    g: Seq<Seq<usize>>,
    heads: Seq<CommitId>,
    insert_after: Seq<CommitId>,
    insert_before: Seq<CommitId>,
    rebase: Seq<CommitId>,
) -> bool {
    &&& strictly_ascending(rebase)
    &&& all_below(rebase, g.len() as int)
    &&& forall|c: CommitId|
        c < g.len() ==> #[trigger] rebase.contains(c) == rewritten(
            g,
            heads,
            insert_after,
            insert_before,
            c as int,
        )
}

/// A parent of the new commit would be rewritten on top of it: the commit
/// would be both an ancestor and a descendant of the new commit.
pub open spec fn makes_loop(
    g: Seq<Seq<usize>>,
    heads: Seq<CommitId>,
    insert_after: Seq<CommitId>,
    insert_before: Seq<CommitId>,
    parents: Seq<CommitId>,
) -> bool {
    exists|i: int|
        0 <= i < parents.len() && rewritten(
            g,
            heads,
            insert_after,
            insert_before,
            #[trigger] parents[i] as int,
        )
}

/// `parents[i]` is the first parent of the new commit that would be
/// rewritten on top of it.
pub open spec fn first_in_loop(
    g: Seq<Seq<usize>>,
    heads: Seq<CommitId>,
    insert_after: Seq<CommitId>,
    insert_before: Seq<CommitId>,
    parents: Seq<CommitId>,
    i: int,
) -> bool {
    &&& 0 <= i < parents.len()
    &&& rewritten(g, heads, insert_after, insert_before, parents[i] as int)
    &&& forall|j: int|
        0 <= j < i ==> !rewritten(
            g,
            heads,
            insert_after,
            insert_before,
            #[trigger] parents[j] as int,
        )
}

/// A child would keep the root as a parent beside the new commit.
pub open spec fn root_beside_new(
    g: Seq<Seq<usize>>,
    heads: Seq<CommitId>,
    insert_after: Seq<CommitId>,
    insert_before: Seq<CommitId>,
    parents: Seq<CommitId>,
) -> bool {
    !parents.contains(ROOT) && exists|k: CommitId|
        k < g.len() && #[trigger] planned_child(g, heads, insert_after, insert_before, k)
            && g[k as int].contains(ROOT)
}

/// With the children listed, a commit is rewritten exactly when it is
/// visible and descends from a listed child.
pub proof fn lemma_rewritten_from_children(
    g: Seq<Seq<usize>>,
    heads: Seq<CommitId>,
    insert_after: Seq<CommitId>,
    insert_before: Seq<CommitId>,
    children: Seq<CommitId>,
    c: int,
)
    requires
        children_planned(g, heads, insert_after, insert_before, children),
    ensures
        rewritten(g, heads, insert_after, insert_before, c) == (visible(g, heads, c)
            && reached_from_any(g, children, c)),
{
    if rewritten(g, heads, insert_after, insert_before, c) {
        let k = choose|k: CommitId|
            k < g.len() && #[trigger] planned_child(g, heads, insert_after, insert_before, k)
                && reaches(g, k as int, c);
        assert(children.contains(k));
        let i = choose|i: int| 0 <= i < children.len() && children[i] == k;
        assert(reaches(g, children[i] as int, c));
    }
    if visible(g, heads, c) && reached_from_any(g, children, c) {
        let i = choose|i: int|
            0 <= i < children.len() && reaches(g, #[trigger] children[i] as int, c);
        assert(children.contains(children[i]));
        assert(planned_child(g, heads, insert_after, insert_before, children[i]));
    }
}

/// Every member of `ids` is a visible commit.
pub open spec fn all_visible(g: Seq<Seq<usize>>, heads: Seq<CommitId>, ids: Seq<CommitId>) -> bool {
    forall|i: int| 0 <= i < ids.len() ==> (#[trigger] ids[i]) < g.len() && visible(g, heads, ids[i] as int)
}

/// What a plan must satisfy before it is written: its parents are visible
/// and make no refused merge, its children are visible and none is the root,
/// its rebase list holds exactly the visible descendants of the children and
/// none of the parents, and no child keeps the root beside the new commit.
pub open spec fn valid_plan(
    s: Seq<CommitData>,
    heads: Seq<CommitId>,
    parents: Seq<CommitId>,
    children: Seq<CommitId>,
    rebase: Seq<CommitId>,
) -> bool {
    let g = graph(s);
    &&& all_visible(g, heads, parents)
    &&& !refused(parents)
    &&& strictly_ascending(children)
    &&& all_visible(g, heads, children)
    &&& !children.contains(ROOT)
    &&& strictly_ascending(rebase)
    &&& all_below(rebase, s.len() as int)
    &&& forall|c: CommitId|
        c < s.len() ==> #[trigger] rebase.contains(c) == (visible(g, heads, c as int)
            && reached_from_any(g, children, c as int))
    &&& forall|i: int| 0 <= i < parents.len() ==> !rebase.contains(#[trigger] parents[i])
    &&& forall|k: int|
        0 <= k < children.len() && s[#[trigger] children[k] as int].parents.contains(ROOT)
            ==> parents.contains(ROOT)
}

/// The parents of a visible commit are visible.
pub proof fn lemma_parent_visible(g: Seq<Seq<usize>>, heads: Seq<CommitId>, c: int, j: int)
    requires
        acyclic(g),
        0 <= c < g.len(),
        0 <= j < g[c].len(),
        visible(g, heads, c),
    ensures
        visible(g, heads, g[c][j] as int),
{
    let t = choose|t: int| 0 <= t < heads.len() && reaches(g, c, #[trigger] heads[t] as int);
    lemma_parent_reaches(g, c, j);
    lemma_reaches_transitive(g, g[c][j] as int, c, heads[t] as int);
}

/// A proper ancestor of a commit is an ancestor of one of its children that
/// is itself an ancestor of the commit.
pub proof fn lemma_first_step(g: Seq<Seq<usize>>, a: int, b: int) -> (c: int)
    requires
        acyclic(g),
        reaches(g, a, b),
        a != b,
    ensures
        is_parent(g, a, c),
        reaches(g, c, b),
        0 <= c < g.len(),
    decreases b,
{
    let j = choose|j: int|
        0 <= j < g[b].len() && (#[trigger] g[b][j]) < b && reaches(g, a, g[b][j] as int);
    if g[b][j] == a {
        b
    } else {
        let c = lemma_first_step(g, a, g[b][j] as int);
        lemma_parent_reaches(g, b, j);
        lemma_reaches_transitive(g, c, g[b][j] as int, b);
        c
    }
}

/// Inserting a commit after a single commit `a` rewrites exactly the visible
/// proper descendants of `a`, never `a` itself, so such a plan makes no loop.
pub proof fn law_insert_after_rebases_descendants(
    s: Seq<CommitData>,
    heads: Seq<CommitId>,
    a: CommitId,
    c: CommitId,
)
    requires
        valid_store(s),
        a < s.len(),
        c < s.len(),
    ensures
        rewritten(graph(s), heads, seq![a], Seq::empty(), c as int) == (visible(
            graph(s),
            heads,
            c as int,
        ) && ancestor(s, a, c) && c != a),
        !makes_loop(graph(s), heads, seq![a], Seq::empty(), seq![a]),
{
    let g = graph(s);
    let after = seq![a];
    let before = Seq::<CommitId>::empty();
    assert forall|x: CommitId| x < s.len() implies rewritten(g, heads, after, before, x as int) == (
    visible(g, heads, x as int) && reaches(g, a as int, x as int) && x != a) by {
        if rewritten(g, heads, after, before, x as int) {
            let k = choose|k: CommitId|
                k < g.len() && #[trigger] planned_child(g, heads, after, before, k) && reaches(
                    g,
                    k as int,
                    x as int,
                );
            let p = choose|p: int|
                0 <= p < after.len() && is_parent(g, #[trigger] after[p] as int, k as int);
            let j = choose|j: int| 0 <= j < g[k as int].len() && #[trigger] g[k as int][j] == a;
            lemma_parent_reaches(g, k as int, j);
            lemma_reaches_transitive(g, a as int, k as int, x as int);
            lemma_reaches_ordered(g, k as int, x as int);
        }
        if visible(g, heads, x as int) && reaches(g, a as int, x as int) && x != a {
            let k = lemma_first_step(g, a as int, x as int);
            lemma_reaches_ordered(g, k, x as int);
            let t = choose|t: int|
                0 <= t < heads.len() && reaches(g, x as int, #[trigger] heads[t] as int);
            lemma_reaches_transitive(g, k, x as int, heads[t] as int);
            assert(is_parent(g, after[0] as int, k));
            assert(planned_child(g, heads, after, before, k as usize));
        }
    }
    if makes_loop(g, heads, after, before, after) {
        let i = choose|i: int|
            0 <= i < after.len() && rewritten(g, heads, after, before, #[trigger] after[i] as int);
        assert(after[i] == a);
    }
}

/// The parents of the members of `ids`, each once, in the order in which
/// they are first met.
fn gather_parents(dag: &Dag, ids: &Vec<CommitId>) -> (out: Vec<CommitId>)
    requires
        dag.wf(),
        all_below(ids@, dag@.len() as int),
    ensures
        out@ == parents_of_all(dag@, ids@),
        all_below(out@, dag@.len() as int),
        forall|i: int|
            0 <= i < out@.len() ==> exists|k: int|
                0 <= k < ids@.len() && is_parent(dag@, #[trigger] out@[i] as int, ids@[k] as int),
{
    let mut out: Vec<CommitId> = Vec::new();
    let mut i: usize = 0;
    while i < ids.len()
        invariant
            dag.wf(),
            all_below(ids@, dag@.len() as int),
            0 <= i <= ids.len(),
            out@ == parents_of_all(dag@, ids@.subrange(0, i as int)),
            all_below(out@, dag@.len() as int),
            forall|x: int|
                0 <= x < out@.len() ==> exists|k: int|
                    0 <= k < ids@.len() && is_parent(
                        dag@,
                        #[trigger] out@[x] as int,
                        ids@[k] as int,
                    ),
        decreases ids.len() - i,
    {
        let ps = dag.parents(ids[i]);
        let ghost base = out@;
        let mut j: usize = 0;
        while j < ps.len()
            invariant
                dag.wf(),
                all_below(ids@, dag@.len() as int),
                0 <= i < ids.len(),
                ps@ == dag@[ids@[i as int] as int],
                0 <= j <= ps.len(),
                out@ == with_new(base, ps@.subrange(0, j as int)),
                all_below(out@, dag@.len() as int),
                forall|x: int|
                    0 <= x < out@.len() ==> exists|k: int|
                        0 <= k < ids@.len() && is_parent(
                            dag@,
                            #[trigger] out@[x] as int,
                            ids@[k] as int,
                        ),
            decreases ps.len() - j,
        {
            let p = ps[j];
            proof {
                assert(ps@.subrange(0, j + 1).drop_last() =~= ps@.subrange(0, j as int));
                assert(dag@[ids@[i as int] as int][j as int] < ids@[i as int]);
            }
            if !contains(&out, p) {
                let ghost before = out@;
                out.push(p);
                proof {
                    assert forall|x: int| 0 <= x < out@.len() implies exists|k: int|
                        0 <= k < ids@.len() && is_parent(
                            dag@,
                            #[trigger] out@[x] as int,
                            ids@[k] as int,
                        ) by {
                        if x < before.len() {
                            assert(out@[x] == before[x]);
                            let k = choose|k: int|
                                0 <= k < ids@.len() && is_parent(
                                    dag@,
                                    before[x] as int,
                                    ids@[k] as int,
                                );
                            assert(is_parent(dag@, out@[x] as int, ids@[k] as int));
                        } else {
                            assert(is_parent(dag@, out@[x] as int, ids@[i as int] as int));
                        }
                    }
                }
            }
            j += 1;
        }
        proof {
            assert(ps@.subrange(0, ps@.len() as int) =~= ps@);
            assert(ids@.subrange(0, i + 1).drop_last() =~= ids@.subrange(0, i as int));
        }
        i += 1;
    }
    proof {
        assert(ids@.subrange(0, ids@.len() as int) =~= ids@);
    }
    out
}

/// The commit that a refused plan names: the first parent of the new commit
/// that would be rewritten on top of it.
pub open spec fn loop_commit(
    g: Seq<Seq<usize>>,
    heads: Seq<CommitId>,
    insert_after: Seq<CommitId>,
    insert_before: Seq<CommitId>,
    parents: Seq<CommitId>,
) -> CommitId {
    parents[choose|i: int| first_in_loop(g, heads, insert_after, insert_before, parents, i)]
}

/// Why a new commit cannot be planned, if it cannot. The reasons are tried
/// in this order: positional parents together with an insertion target; the
/// root among the `insert_before` targets; a loop; a merge with the root.
pub open spec fn refusal(
    s: Seq<CommitData>,
    v: ViewData,
    parents: Seq<CommitId>,
    insert_after: Seq<CommitId>,
    insert_before: Seq<CommitId>,
) -> Option<Error> {
    let g = graph(s);
    let new_parents = planned_parents(g, v.working_copy, parents, insert_after, insert_before);
    if parents.len() > 0 && (insert_after.len() > 0 || insert_before.len() > 0) {
        Some(Error::UsageError { problem: UsageProblem::ParentsWithInsertion })
    } else if insert_before.contains(ROOT) {
        Some(Error::BackendConstraintViolation)
    } else if makes_loop(g, v.heads, insert_after, insert_before, new_parents) {
        Some(
            Error::LoopError {
                commit: loop_commit(g, v.heads, insert_after, insert_before, new_parents),
            },
        )
    } else if refused(new_parents) || root_beside_new(
        g,
        v.heads,
        insert_after,
        insert_before,
        new_parents,
    ) {
        Some(Error::BackendConstraintViolation)
    } else {
        None
    }
}

/// `plan` is the plan for the given targets: it has the planned parents, the
/// planned children, and for its rebase list exactly the commits that must
/// be rewritten.
pub open spec fn plan_made(
    s: Seq<CommitData>,
    v: ViewData,
    parents: Seq<CommitId>,
    insert_after: Seq<CommitId>,
    insert_before: Seq<CommitId>,
    plan: Plan,
) -> bool {
    let g = graph(s);
    &&& plan.parents@ == planned_parents(g, v.working_copy, parents, insert_after, insert_before)
    &&& children_planned(g, v.heads, insert_after, insert_before, plan.children@)
    &&& rebase_planned(g, v.heads, insert_after, insert_before, plan.rebase@)
    &&& valid_plan(s, v.heads, plan.parents@, plan.children@, plan.rebase@)
}

/// In a plan that makes no loop, no commit that is rewritten is an ancestor
/// of a parent of the new commit: the descendants that are rewritten are all
/// the visible descendants of the children, with none left out.
pub proof fn law_rewritten_is_no_ancestor_of_a_parent(
    g: Seq<Seq<usize>>,
    heads: Seq<CommitId>,
    insert_after: Seq<CommitId>,
    insert_before: Seq<CommitId>,
    parents: Seq<CommitId>,
    c: CommitId,
    i: int,
)
    requires
        !makes_loop(g, heads, insert_after, insert_before, parents),
        0 <= i < parents.len(),
        visible(g, heads, parents[i] as int),
        rewritten(g, heads, insert_after, insert_before, c as int),
    ensures
        !reaches(g, c as int, parents[i] as int),
{
    if reaches(g, c as int, parents[i] as int) {
        let k = choose|k: CommitId|
            k < g.len() && #[trigger] planned_child(g, heads, insert_after, insert_before, k)
                && reaches(g, k as int, c as int);
        lemma_reaches_transitive(g, k as int, c as int, parents[i] as int);
        assert(rewritten(g, heads, insert_after, insert_before, parents[i] as int));
    }
}

/// Inserting a commit after both a commit `a` and a descendant `c` of `a`
/// is refused as a loop, and `c` is the commit that the refusal names: it
/// lies on the path from `a` to `c`, and would have to be both a parent of
/// the new commit and rewritten on top of it.
pub proof fn law_insert_after_ancestor_and_descendant(
    s: Seq<CommitData>,
    v: ViewData,
    a: CommitId,
    c: CommitId,
)
    requires
        valid_store(s),
        a < s.len(),
        c < s.len(),
        visible(graph(s), v.heads, c as int),
        ancestor(s, a, c),
        a != c,
    ensures
        refusal(s, v, Seq::empty(), seq![a, c], Seq::empty()) == Some(
            Error::LoopError { commit: c },
        ),
{
    let g = graph(s);
    let after = seq![a, c];
    let before = Seq::<CommitId>::empty();
    let k = lemma_first_step(g, a as int, c as int);
    lemma_reaches_ordered(g, k, c as int);
    lemma_reaches_ordered(g, a as int, c as int);
    let t = choose|t: int| 0 <= t < v.heads.len() && reaches(g, c as int, #[trigger] v.heads[t] as int);
    lemma_reaches_transitive(g, k, c as int, v.heads[t] as int);
    assert(is_parent(g, after[0] as int, k));
    assert(planned_child(g, v.heads, after, before, k as usize));
    assert(rewritten(g, v.heads, after, before, after[1] as int));
    if rewritten(g, v.heads, after, before, a as int) {
        let x = choose|x: CommitId|
            x < g.len() && #[trigger] planned_child(g, v.heads, after, before, x) && reaches(
                g,
                x as int,
                a as int,
            );
        let p = choose|p: int| 0 <= p < after.len() && is_parent(g, #[trigger] after[p] as int, x as int);
        let j = choose|j: int| 0 <= j < g[x as int].len() && #[trigger] g[x as int][j] == after[p];
        assert(g[x as int][j] < x);
        lemma_reaches_ordered(g, x as int, a as int);
    }
    assert(first_in_loop(g, v.heads, after, before, after, 1));
    let w = choose|w: int| first_in_loop(g, v.heads, after, before, after, w);
    assert(w == 1);
}

/// Plans a new commit in the view `view` of `store`.
///
/// Refused, in this order: positional parents together with an insertion
/// target; the root among the `insert_before` targets; a parent of the new
/// commit that would be rewritten on top of it, of which the first is named;
/// a merge with the root, be it the new commit or a child that keeps the
/// root beside the new commit.
#[verifier::loop_isolation(false)]
pub fn plan_insertion(
    store: &Store,
    view: &RepoView,
    parents: &Vec<CommitId>,
    insert_after: &Vec<CommitId>,
    insert_before: &Vec<CommitId>,
) -> (r: Result<Plan, Error>)
    requires
        store.wf(),
        valid_view(store@, view@),
        all_visible(graph(store@), view@.heads, parents@),
        all_visible(graph(store@), view@.heads, insert_after@),
        all_visible(graph(store@), view@.heads, insert_before@),
    ensures
        match r {
            Ok(plan) => {
                &&& refusal(store@, view@, parents@, insert_after@, insert_before@) is None
                &&& plan_made(store@, view@, parents@, insert_after@, insert_before@, plan)
            },
            Err(e) => refusal(store@, view@, parents@, insert_after@, insert_before@) == Some(e),
        },
{
    if parents.len() > 0 && (insert_after.len() > 0 || insert_before.len() > 0) {
        return Err(Error::UsageError { problem: UsageProblem::ParentsWithInsertion });
    }
    if contains(insert_before, ROOT) {
        return Err(Error::BackendConstraintViolation);
    }
    let dag = store.dag();
    let n = dag.len();
    let ghost g = graph(store@);
    let ghost heads = view@.heads;
    let vis = dag.ancestors_of(&view.heads);
    proof {
        assert forall|c: int, j: int|
            0 <= c < g.len() && 0 <= j < g[c].len() && vis@[c] && (#[trigger] g[c][j])
                < c implies vis@[g[c][j] as int] by {
            lemma_parent_visible(g, heads, c, j);
        }
    }
    // The parents of the new commit.
    let new_parents = if insert_after.len() > 0 {
        copy_ids(insert_after)
    } else if insert_before.len() > 0 {
        let gathered = gather_parents(dag, insert_before);
        proof {
            assert forall|i: int| 0 <= i < gathered@.len() implies (#[trigger] gathered@[i])
                < g.len() && visible(g, heads, gathered@[i] as int) by {
                let k = choose|k: int|
                    0 <= k < insert_before@.len() && is_parent(
                        g,
                        gathered@[i] as int,
                        insert_before@[k] as int,
                    );
                let c = insert_before@[k] as int;
                let j = choose|j: int| 0 <= j < g[c].len() && #[trigger] g[c][j] == gathered@[i];
                lemma_parent_visible(g, heads, c, j);
            }
        }
        gathered
    } else if parents.len() > 0 {
        copy_ids(parents)
    } else {
        let mut only: Vec<CommitId> = Vec::new();
        only.push(view.working_copy);
        only
    };
    // The commits that get the new commit as a parent.
    let children = if insert_before.len() > 0 {
        sorted_set(insert_before, n)
    } else {
        dag.children_of(insert_after, &vis)
    };
    proof {
        assert forall|c: CommitId| c < g.len() implies #[trigger] children@.contains(c)
            == planned_child(g, heads, insert_after@, insert_before@, c) by {

        }
    }
    let desc = dag.descendants_of(&children, &vis);
    proof {
        assert forall|c: int| 0 <= c < n implies desc@[c] == rewritten(
            g,
            heads,
            insert_after@,
            insert_before@,
            c,
        ) by {
            lemma_rewritten_from_children(g, heads, insert_after@, insert_before@, children@, c);
        }
    }
    // A parent that would be rewritten on top of the new commit makes a loop.
    let mut i: usize = 0;
    while i < new_parents.len()
        invariant
            0 <= i <= new_parents.len(),
            desc@.len() == n,
            n == g.len(),
            all_visible(g, heads, new_parents@),
            forall|c: int|
                0 <= c < n ==> desc@[c] == rewritten(g, heads, insert_after@, insert_before@, c),
            forall|j: int|
                0 <= j < i ==> !rewritten(
                    g,
                    heads,
                    insert_after@,
                    insert_before@,
                    #[trigger] new_parents@[j] as int,
                ),
        decreases new_parents.len() - i,
    {
        if desc[new_parents[i]] {
            proof {
                assert(first_in_loop(
                    g,
                    heads,
                    insert_after@,
                    insert_before@,
                    new_parents@,
                    i as int,
                ));
                assert(makes_loop(g, heads, insert_after@, insert_before@, new_parents@));
                let w = choose|w: int|
                    first_in_loop(g, heads, insert_after@, insert_before@, new_parents@, w);
                assert(w == i);
            }
            return Err(Error::LoopError { commit: new_parents[i] });
        }
        i += 1;
    }
    if new_parents.len() >= 2 && contains(&new_parents, ROOT) {
        return Err(Error::BackendConstraintViolation);
    }
    let has_root = contains(&new_parents, ROOT);
    let mut k: usize = 0;
    while k < children.len()
        invariant
            dag.wf(),
            dag@ == g,
            0 <= k <= children.len(),
            all_below(children@, g.len() as int),
            has_root == new_parents@.contains(ROOT),
            forall|j: int|
                0 <= j < k ==> has_root || !g[#[trigger] children@[j] as int].contains(ROOT),
        decreases children.len() - k,
    {
        if !has_root && contains(dag.parents(children[k]), ROOT) {
            proof {
                assert(children@.contains(children@[k as int]));
                assert(planned_child(g, heads, insert_after@, insert_before@, children@[k as int]));
                assert(root_beside_new(g, heads, insert_after@, insert_before@, new_parents@));
            }
            return Err(Error::BackendConstraintViolation);
        }
        k += 1;
    }
    let rebase = selected(&desc);
    proof {
        assert forall|c: CommitId| c < g.len() implies #[trigger] rebase@.contains(c) == rewritten(
            g,
            heads,
            insert_after@,
            insert_before@,
            c as int,
        ) by {
            assert(rebase@.contains(c as int as usize) == desc@[c as int]);
        }
        assert(new_parents@.len() >= 1);
        assert forall|i: int| 0 <= i < children@.len() implies (#[trigger] children@[i]) < g.len()
            && visible(g, heads, children@[i] as int) && children@[i] != ROOT by {
            let c = children@[i];
            assert(children@.contains(c));
            assert(planned_child(g, heads, insert_after@, insert_before@, c));
            if insert_before@.len() > 0 {
                let w = choose|w: int| 0 <= w < insert_before@.len() && insert_before@[w] == c;
                assert(visible(g, heads, insert_before@[w] as int));
            } else {
                assert(store@[0] == crate::store::root_commit());
                assert(g[0].len() == 0);
            }
        }
        assert forall|c: CommitId| c < store@.len() implies #[trigger] rebase@.contains(c) == (
        visible(g, heads, c as int) && reached_from_any(g, children@, c as int)) by {
            lemma_rewritten_from_children(
                g,
                heads,
                insert_after@,
                insert_before@,
                children@,
                c as int,
            );
        }
        assert forall|i: int| 0 <= i < new_parents@.len() implies !rebase@.contains(
            #[trigger] new_parents@[i],
        ) by {
            if rebase@.contains(new_parents@[i]) {
                assert(rewritten(g, heads, insert_after@, insert_before@, new_parents@[i] as int));
            }
        }
        assert forall|k: int|
            0 <= k < children@.len() && store@[#[trigger] children@[k] as int].parents.contains(
                ROOT,
            ) implies new_parents@.contains(ROOT) by {
            assert(g[children@[k] as int] == store@[children@[k] as int].parents);
        }
        if root_beside_new(g, heads, insert_after@, insert_before@, new_parents@) {
            let c = choose|c: CommitId|
                c < g.len() && #[trigger] planned_child(g, heads, insert_after@, insert_before@, c)
                    && g[c as int].contains(ROOT);
            assert(children@.contains(c));
            let j = choose|j: int| 0 <= j < children@.len() && children@[j] == c;
            assert(!g[children@[j] as int].contains(ROOT));
        }
    }
    Ok(Plan { parents: new_parents, children, rebase })
}

} // verus!
