//! The commit store: an arena of immutable commits, addressed by content.
//! Storing the same parents, tree, description and change id twice gives the
//! same id and adds nothing.

use crate::dag::{
    acyclic, all_below, contains, is_parent, lemma_reaches_antisymmetric, lemma_reaches_transitive,
    reaches, same_ids, strictly_ascending, Dag,
};
use crate::error::Error;
use vstd::prelude::*;

verus! {

/// The position of a commit in the store. The root commit is at 0.
pub type CommitId = usize;

/// The identity of a line of development; it survives rewrites.
pub type ChangeId = u64;

/// The identity of a tree of files.
pub type TreeId = u64;

/// The id of the root commit.
pub const ROOT: CommitId = 0;

/// What a commit holds. Two commits that agree on all four parts are the
/// same commit.
pub struct CommitData {
    pub parents: Seq<CommitId>,
    pub tree: TreeId,
    pub description: Seq<char>,
    pub change_id: ChangeId,
}

/// The root commit: no parents, the empty tree, no description.
pub open spec fn root_commit() -> CommitData {
    CommitData { parents: Seq::empty(), tree: 0, description: Seq::empty(), change_id: 0 }
}

/// The parent lists of a store's commits.
pub open spec fn graph(s: Seq<CommitData>) -> Seq<Seq<usize>> {
    Seq::new(s.len(), |i: int| s[i].parents)
}

/// `a` is an ancestor of `b` in the store `s`. A commit is its own ancestor.
pub open spec fn ancestor(s: Seq<CommitData>, a: CommitId, b: CommitId) -> bool {
    reaches(graph(s), a as int, b as int)
}

/// The backend refuses a commit without parents (there is one root), and a
/// merge that has the root among its parents.
pub open spec fn refused(parents: Seq<CommitId>) -> bool {
    parents.len() == 0 || (parents.len() >= 2 && parents.contains(ROOT))
}

/// The smallest change id above all those in use.
pub open spec fn next_change(s: Seq<CommitData>) -> int
    decreases s.len(),
{
    if s.len() == 0 {
        0
    } else {
        let rest = next_change(s.drop_last());
        if s.last().change_id + 1 > rest {
            s.last().change_id + 1
        } else {
            rest
        }
    }
}

/// What holds of every store: the root is first and alone without parents,
/// parents precede children, the root is no parent of a merge, and no commit
/// occurs twice.
pub open spec fn valid_store(s: Seq<CommitData>) -> bool {
    &&& s.len() >= 1
    &&& s[0] == root_commit()
    &&& acyclic(graph(s))
    &&& forall|i: int| 1 <= i < s.len() ==> !refused(#[trigger] s[i].parents)
    &&& forall|i: int, j: int| 0 <= i < j < s.len() ==> s[i] != s[j]
    &&& forall|i: int| 0 <= i < s.len() ==> (#[trigger] s[i]).change_id < u64::MAX
}

/// The store after `commit` has been stored in `s`.
pub open spec fn stored(s: Seq<CommitData>, commit: CommitData) -> Seq<CommitData> {
    if s.contains(commit) {
        s
    } else {
        s.push(commit)
    }
}

/// What a commit holds beside its parents.
struct Meta {
    tree: TreeId,
    description: String,
    change_id: ChangeId,
}

/// The commit store. It only ever grows, and what it holds never changes.
pub struct Store {
    dag: Dag,
    meta: Vec<Meta>,
    next_change: u64,
}

impl View for Store {
    type V = Seq<CommitData>;

    closed spec fn view(&self) -> Seq<CommitData> {
        Seq::new(
            self.dag@.len(),
            |i: int|
                CommitData {
                    parents: self.dag@[i],
                    tree: self.meta@[i].tree,
                    description: self.meta@[i].description@,
                    change_id: self.meta@[i].change_id,
                },
        )
    }
}

/// Storing a commit raises the next change id above that of the commit.
proof fn lemma_next_change_push(s: Seq<CommitData>, c: CommitData)
    ensures
        next_change(s.push(c)) == if c.change_id + 1 > next_change(s) {
            c.change_id + 1
        } else {
            next_change(s)
        },
{
    assert(s.push(c).drop_last() =~= s);
}

/// Every change id in use is below `next_change`.
pub proof fn lemma_next_change_bounds(s: Seq<CommitData>, i: int)
    requires
        0 <= i < s.len(),
    ensures
        s[i].change_id < next_change(s),
    decreases s.len(),
{
    if i < s.len() - 1 {
        lemma_next_change_bounds(s.drop_last(), i);
    }
}

impl Store {
    /// The part of the invariant that concerns how the store is laid out.
    pub closed spec fn inv(&self) -> bool {
        &&& self.meta@.len() == self.dag@.len()
        &&& self.dag.wf()
        &&& self.next_change == next_change(self@)
    }

    /// The invariant of the store.
    pub open spec fn wf(&self) -> bool {
        &&& self.inv()
        &&& valid_store(self@)
    }

    /// A store that holds the root commit and nothing else.
    pub fn new() -> (store: Store)
        ensures
            store.wf(),
            store@ == seq![root_commit()],
            next_change(store@) == 1,
    {
        let mut dag = Dag::new();
        dag.push(Vec::new());
        let mut meta: Vec<Meta> = Vec::new();
        meta.push(Meta { tree: 0, description: String::new(), change_id: 0 });
        let store = Store { dag, meta, next_change: 1 };
        proof {
            assert(store@ =~= seq![root_commit()]);
            assert(graph(store@) =~= store.dag@);
            lemma_next_change_push(Seq::empty(), root_commit());
            assert(Seq::<CommitData>::empty().push(root_commit()) =~= store@);
        }
        store
    }

    /// The number of commits in the store, hidden ones included.
    pub fn len(&self) -> (n: usize)
        requires
            self.wf(),
        ensures
            n == self@.len(),
            n >= 1,
    {
        self.dag.len()
    }

    /// The id of the root commit.
    pub fn root(&self) -> (id: CommitId)
        ensures
            id == ROOT,
    {
        ROOT
    }

    /// Whether `id` is the root commit.
    pub fn is_root(&self, id: CommitId) -> (r: bool)
        ensures
            r == (id == ROOT),
    {
        id == ROOT
    }

    /// Whether a merge may have the root commit among its parents. It may
    /// not.
    pub fn permits_root_as_merge_parent(&self) -> (r: bool)
        ensures
            !r,
    {
        false
    }

    /// Whether `id` names a commit of this store.
    pub fn contains(&self, id: CommitId) -> (r: bool)
        requires
            self.wf(),
        ensures
            r == (id < self@.len()),
    {
        id < self.dag.len()
    }

    /// The graph of the store.
    pub fn dag(&self) -> (dag: &Dag)
        requires
            self.wf(),
        ensures
            dag.wf(),
            dag@ == graph(self@),
    {
        assert(graph(self@) =~= self.dag@);
        &self.dag
    }

    /// The parents of a commit, in the order in which they were given.
    pub fn parents_of(&self, id: CommitId) -> (parents: &Vec<CommitId>)
        requires
            self.wf(),
            id < self@.len(),
        ensures
            parents@ == self@[id as int].parents,
    {
        self.dag.parents(id)
    }

    /// The tree of a commit.
    pub fn tree_of(&self, id: CommitId) -> (tree: TreeId)
        requires
            self.wf(),
            id < self@.len(),
        ensures
            tree == self@[id as int].tree,
    {
        self.meta[id].tree
    }

    /// The description of a commit.
    pub fn description_of(&self, id: CommitId) -> (description: &String)
        requires
            self.wf(),
            id < self@.len(),
        ensures
            description@ == self@[id as int].description,
    {
        &self.meta[id].description
    }

    /// The change that a commit belongs to.
    pub fn change_of(&self, id: CommitId) -> (change_id: ChangeId)
        requires
            self.wf(),
            id < self@.len(),
        ensures
            change_id == self@[id as int].change_id,
    {
        self.meta[id].change_id
    }

    /// A change id that no commit of the store carries.
    pub fn fresh_change(&self) -> (change_id: ChangeId)
        requires
            self.wf(),
        ensures
            change_id == next_change(self@),
            forall|i: int| 0 <= i < self@.len() ==> (#[trigger] self@[i]).change_id != change_id,
    {
        proof {
            assert forall|i: int| 0 <= i < self@.len() implies (#[trigger] self@[i]).change_id
                != self.next_change by {
                lemma_next_change_bounds(self@, i);
            }
        }
        self.next_change
    }

    /// The commits that list `id` among their parents, in ascending order.
    /// The store keeps no such index; it is derived on each call.
    pub fn children_of(&self, id: CommitId) -> (children: Vec<CommitId>)
        requires
            self.wf(),
        ensures
            strictly_ascending(children@),
            all_below(children@, self@.len() as int),
            forall|c: CommitId|
                c < self@.len() ==> #[trigger] children@.contains(c) == is_parent(
                    graph(self@),
                    id as int,
                    c as int,
                ),
    {
        let n = self.dag.len();
        let mut all: Vec<bool> = Vec::new();
        let mut i: usize = 0;
        while i < n
            invariant
                0 <= i <= n,
                all@.len() == i,
                forall|k: int| 0 <= k < i ==> all@[k],
            decreases n - i,
        {
            all.push(true);
            i += 1;
        }
        let mut of: Vec<usize> = Vec::new();
        of.push(id);
        let children = self.dag.children_of(&of, &all);
        proof {
            let g = graph(self@);
            assert(g =~= self.dag@);
            assert(of@.len() == 1 && of@[0] == id);
            assert forall|c: CommitId| c < self@.len() implies #[trigger] children@.contains(c)
                == is_parent(g, id as int, c as int) by {
                assert(all@[c as int]);
                if is_parent(g, id as int, c as int) {
                    assert(is_parent(self.dag@, of@[0] as int, c as int));
                }
                if children@.contains(c) {
                    let p = choose|p: int|
                        0 <= p < of@.len() && is_parent(
                            self.dag@,
                            #[trigger] of@[p] as int,
                            c as int,
                        );
                    assert(p == 0);
                }
            }
        }
        children
    }

    /// Whether `a` is an ancestor of `b`. A commit is its own ancestor.
    pub fn is_ancestor(&self, a: CommitId, b: CommitId) -> (r: bool)
        requires
            self.wf(),
        ensures
            r == ancestor(self@, a, b),
    {
        assert(graph(self@) =~= self.dag@);
        self.dag.is_ancestor(a, b)
    }

    /// The position of the commit with exactly these parts, if it is stored.
    fn find(
        &self,
        parents: &Vec<CommitId>,
        tree: TreeId,
        description: &String,
        change_id: ChangeId,
    ) -> (found: Option<CommitId>)
        requires
            self.wf(),
        ensures
            ({
                let commit = CommitData {
                    parents: parents@,
                    tree,
                    description: description@,
                    change_id,
                };
                match found {
                    Some(id) => id < self@.len() && self@[id as int] == commit,
                    None => !self@.contains(commit),
                }
            }),
    {
        let ghost commit = CommitData { parents: parents@, tree, description: description@, change_id };
        let n = self.dag.len();
        let mut i: usize = 0;
        while i < n
            invariant
                self.wf(),
                n == self@.len(),
                0 <= i <= n,
                commit == (CommitData {
                    parents: parents@,
                    tree,
                    description: description@,
                    change_id,
                }),
                forall|k: int| 0 <= k < i ==> self@[k] != commit,
            decreases n - i,
        {
            let m = &self.meta[i];
            if m.tree == tree && m.change_id == change_id && same_ids(self.dag.parents(i), parents)
                && m.description == *description {
                return Some(i);
            }
            i += 1;
        }
        None
    }

    /// Stores a commit whose parents the backend accepts.
    pub(crate) fn intern(
        &mut self,
        parents: Vec<CommitId>,
        tree: TreeId,
        description: String,
        change_id: ChangeId,
    ) -> (id: CommitId)
        requires
            old(self).wf(),
            all_below(parents@, old(self)@.len() as int),
            !refused(parents@),
            change_id < u64::MAX,
        ensures
            final(self).wf(),
            ({
                let commit = CommitData {
                    parents: parents@,
                    tree,
                    description: description@,
                    change_id,
                };
                &&& final(self)@ == stored(old(self)@, commit)
                &&& id < final(self)@.len()
                &&& final(self)@[id as int] == commit
            }),
    {
        let ghost commit = CommitData { parents: parents@, tree, description: description@, change_id };
        match self.find(&parents, tree, &description, change_id) {
            Some(id) => id,
            None => {
                let ghost before = self@;
                let id = self.dag.push(parents);
                self.meta.push(Meta { tree, description, change_id });
                if change_id + 1 > self.next_change {
                    self.next_change = change_id + 1;
                }
                proof {
                    assert(self@ =~= before.push(commit));
                    assert(graph(self@) =~= self.dag@);
                    lemma_next_change_push(before, commit);
                    assert(self@[0] == before[0]);
                    assert forall|i: int| 1 <= i < self@.len() implies !refused(
                        #[trigger] self@[i].parents,
                    ) by {
                        if i < before.len() {
                            assert(self@[i] == before[i]);
                        }
                    }
                    assert forall|i: int, j: int| 0 <= i < j < self@.len() implies self@[i]
                        != self@[j] by {
                        assert(self@[i] == before[i]);
                        if j < before.len() {
                            assert(self@[j] == before[j]);
                        }
                    }
                    assert forall|i: int| 0 <= i < self@.len() implies (#[trigger] self@[i]).change_id
                        < u64::MAX by {
                        if i < before.len() {
                            assert(self@[i] == before[i]);
                        }
                    }
                }
                id
            },
        }
    }

    /// Stores a commit and returns its id. A commit with the same parents,
    /// tree, description and change id as one already stored gets that
    /// commit's id, and the store does not grow. The backend refuses a commit
    /// without parents, and a merge with the root among its parents.
    pub fn store_commit(
        &mut self,
        parents: Vec<CommitId>,
        tree: TreeId,
        description: String,
        change_id: ChangeId,
    ) -> (r: Result<CommitId, Error>)
        requires
            old(self).wf(),
            all_below(parents@, old(self)@.len() as int),
            change_id < u64::MAX,
        ensures
            final(self).wf(),
            ({
                let commit = CommitData {
                    parents: parents@,
                    tree,
                    description: description@,
                    change_id,
                };
                match r {
                    Ok(id) => {
                        &&& !refused(parents@)
                        &&& final(self)@ == stored(old(self)@, commit)
                        &&& id < final(self)@.len()
                        &&& final(self)@[id as int] == commit
                    },
                    Err(e) => {
                        &&& refused(parents@)
                        &&& e == Error::BackendConstraintViolation
                        &&& final(self)@ == old(self)@
                    },
                }
            }),
    {
        if parents.len() == 0 || (parents.len() >= 2 && contains(&parents, ROOT)) {
            return Err(Error::BackendConstraintViolation);
        }
        Ok(self.intern(parents, tree, description, change_id))
    }
}

/// Ancestry is a partial order: every commit is its own ancestor, an
/// ancestor of an ancestor is an ancestor, and two different commits are
/// never ancestors of each other, so the graph has no cycle.
pub proof fn law_ancestry_is_partial_order(s: Seq<CommitData>, a: CommitId, b: CommitId, c: CommitId)
    ensures
        ancestor(s, a, a),
        ancestor(s, a, b) && ancestor(s, b, c) ==> ancestor(s, a, c),
        ancestor(s, a, b) && ancestor(s, b, a) ==> a == b,
{
    let g = graph(s);
    if ancestor(s, a, b) && ancestor(s, b, c) {
        lemma_reaches_transitive(g, a as int, b as int, c as int);
    }
    if ancestor(s, a, b) && ancestor(s, b, a) {
        lemma_reaches_antisymmetric(g, a as int, b as int);
    }
}

/// Storing a commit twice gives the same id both times, and the second time
/// the store is left as it was.
pub proof fn law_store_commit_idempotent(
    s: Seq<CommitData>,
    commit: CommitData,
    first: CommitId,
    second: CommitId,
)
    requires
        valid_store(stored(s, commit)),
        first < stored(s, commit).len(),
        stored(s, commit)[first as int] == commit,
        second < stored(stored(s, commit), commit).len(),
        stored(stored(s, commit), commit)[second as int] == commit,
    ensures
        stored(stored(s, commit), commit) == stored(s, commit),
        second == first,
{
    let once = stored(s, commit);
    assert(once.contains(commit));
}

} // verus!
