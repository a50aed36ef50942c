//! An append-only directed acyclic graph held as an arena: every node names
//! its parents by position, and a node's parents always precede it. Both the
//! commit graph and the operation graph are built on it.

use vstd::prelude::*;

verus! {

/// Every parent of a node precedes the node, so the graph has no cycle.
pub open spec fn acyclic(g: Seq<Seq<usize>>) -> bool {
    forall|i: int, j: int| 0 <= i < g.len() && 0 <= j < g[i].len() ==> (#[trigger] g[i][j]) < i
}

/// `a` is an ancestor of `b`: either the same node, or an ancestor of one of
/// the parents of `b`.
pub open spec fn reaches(g: Seq<Seq<usize>>, a: int, b: int) -> bool
    decreases b,
{
    a == b || (0 <= b < g.len() && exists|j: int|
        0 <= j < g[b].len() && (#[trigger] g[b][j]) < b && reaches(g, a, g[b][j] as int))
}

/// `a` is an ancestor of at least one member of `targets`.
pub open spec fn reaches_any(g: Seq<Seq<usize>>, a: int, targets: Seq<usize>) -> bool {
    exists|t: int| 0 <= t < targets.len() && reaches(g, a, #[trigger] targets[t] as int)
}

/// At least one member of `sources` is an ancestor of `b`.
pub open spec fn reached_from_any(g: Seq<Seq<usize>>, sources: Seq<usize>, b: int) -> bool {
    exists|s: int| 0 <= s < sources.len() && reaches(g, #[trigger] sources[s] as int, b)
}

/// `p` is one of the listed parents of `c`.
pub open spec fn is_parent(g: Seq<Seq<usize>>, p: int, c: int) -> bool {
    0 <= c < g.len() && exists|j: int| 0 <= j < g[c].len() && #[trigger] g[c][j] == p
}

/// Every member of `ids` names a node of a graph with `n` nodes.
pub open spec fn all_below(ids: Seq<usize>, n: int) -> bool {
    forall|i: int| 0 <= i < ids.len() ==> (#[trigger] ids[i]) < n
}

/// The members of `s` grow strictly, so none occurs twice.
pub open spec fn strictly_ascending(s: Seq<usize>) -> bool {
    forall|i: int, j: int| 0 <= i < j < s.len() ==> s[i] < s[j]
}

/// A node is an ancestor of each of its children.
pub proof fn lemma_parent_reaches(g: Seq<Seq<usize>>, c: int, j: int)
    requires
        acyclic(g),
        0 <= c < g.len(),
        0 <= j < g[c].len(),
    ensures
        reaches(g, g[c][j] as int, c),
{
    assert(reaches(g, g[c][j] as int, g[c][j] as int));
}

/// An ancestor never comes after its descendant in the arena.
pub proof fn lemma_reaches_ordered(g: Seq<Seq<usize>>, a: int, b: int)
    requires
        reaches(g, a, b),
    ensures
        a <= b,
    decreases b,
{
    if a != b {
        let j = choose|j: int|
            0 <= j < g[b].len() && (#[trigger] g[b][j]) < b && reaches(g, a, g[b][j] as int);
        lemma_reaches_ordered(g, a, g[b][j] as int);
    }
}

/// Ancestry is transitive.
pub proof fn lemma_reaches_transitive(g: Seq<Seq<usize>>, a: int, b: int, c: int)
    requires
        reaches(g, a, b),
        reaches(g, b, c),
    ensures
        reaches(g, a, c),
    decreases c,
{
    if b != c {
        let j = choose|j: int|
            0 <= j < g[c].len() && (#[trigger] g[c][j]) < c && reaches(g, b, g[c][j] as int);
        lemma_reaches_transitive(g, a, b, g[c][j] as int);
    }
}

/// Two nodes that are ancestors of each other are the same node.
pub proof fn lemma_reaches_antisymmetric(g: Seq<Seq<usize>>, a: int, b: int)
    requires
        reaches(g, a, b),
        reaches(g, b, a),
    ensures
        a == b,
{
    lemma_reaches_ordered(g, a, b);
    lemma_reaches_ordered(g, b, a);
}

/// A graph that was extended keeps the ancestry among its old nodes.
pub proof fn lemma_reaches_extended(g: Seq<Seq<usize>>, h: Seq<Seq<usize>>, a: int, b: int)
    requires
        g.len() <= h.len(),
        forall|i: int| 0 <= i < g.len() ==> h[i] == #[trigger] g[i],
        0 <= b < g.len(),
    ensures
        reaches(h, a, b) == reaches(g, a, b),
    decreases b,
{
    assert(h[b] == g[b]);
    if a != b {
        if reaches(g, a, b) {
            let j = choose|j: int|
                0 <= j < g[b].len() && (#[trigger] g[b][j]) < b && reaches(g, a, g[b][j] as int);
            lemma_reaches_extended(g, h, a, g[b][j] as int);
            assert(reaches(h, a, h[b][j] as int));
        }
        if reaches(h, a, b) {
            let j = choose|j: int|
                0 <= j < h[b].len() && (#[trigger] h[b][j]) < b && reaches(h, a, h[b][j] as int);
            lemma_reaches_extended(g, h, a, g[b][j] as int);
            assert(reaches(g, a, g[b][j] as int));
        }
    }
}

/// The first node reaches every node of a graph in which every later node
/// has a parent.
pub proof fn lemma_first_reaches(g: Seq<Seq<usize>>, b: int)
    requires
        acyclic(g),
        forall|i: int| 1 <= i < g.len() ==> (#[trigger] g[i]).len() >= 1,
        0 <= b < g.len(),
    ensures
        reaches(g, 0, b),
    decreases b,
{
    if b != 0 {
        assert(g[b][0] < b);
        lemma_first_reaches(g, g[b][0] as int);
    }
}

/// In a set of nodes that holds the parents of each of its members, every
/// ancestor of a member is a member.
pub proof fn lemma_closed_under_ancestors(g: Seq<Seq<usize>>, mask: Seq<bool>, a: int, b: int)
    requires
        mask.len() == g.len(),
        forall|c: int, j: int|
            0 <= c < g.len() && 0 <= j < g[c].len() && mask[c] && (#[trigger] g[c][j]) < c
                ==> mask[g[c][j] as int],
        0 <= b < g.len(),
        mask[b],
        reaches(g, a, b),
    ensures
        0 <= a < g.len(),
        mask[a],
    decreases b,
{
    if a != b {
        let j = choose|j: int|
            0 <= j < g[b].len() && (#[trigger] g[b][j]) < b && reaches(g, a, g[b][j] as int);
        lemma_closed_under_ancestors(g, mask, a, g[b][j] as int);
    }
}

/// Whether `x` occurs in `v`.
pub fn contains(v: &Vec<usize>, x: usize) -> (found: bool)
    ensures
        found == v@.contains(x),
{
    let mut i: usize = 0;
    while i < v.len()
        invariant
            0 <= i <= v.len(),
            forall|k: int| 0 <= k < i ==> v@[k] != x,
        decreases v.len() - i,
    {
        if v[i] == x {
            return true;
        }
        i += 1;
    }
    false
}

/// Whether two lists hold the same ids in the same order.
pub fn same_ids(a: &Vec<usize>, b: &Vec<usize>) -> (r: bool)
    ensures
        r == (a@ == b@),
{
    if a.len() != b.len() {
        return false;
    }
    let mut i: usize = 0;
    while i < a.len()
        invariant
            a@.len() == b@.len(),
            0 <= i <= a.len(),
            forall|k: int| 0 <= k < i ==> a@[k] == b@[k],
        decreases a.len() - i,
    {
        if a[i] != b[i] {
            return false;
        }
        i += 1;
    }
    assert(a@ =~= b@);
    true
}

/// A table of `n` flags in which exactly the members of `ids` are set.
pub fn members(ids: &Vec<usize>, n: usize) -> (mask: Vec<bool>)
    requires
        all_below(ids@, n as int),
    ensures
        mask@.len() == n,
        forall|i: int| 0 <= i < n ==> mask@[i] == ids@.contains(i as usize),
{
    let mut mask: Vec<bool> = Vec::new();
    let mut i: usize = 0;
    while i < n
        invariant
            0 <= i <= n,
            mask@.len() == i,
            forall|k: int| 0 <= k < i ==> !mask@[k],
        decreases n - i,
    {
        mask.push(false);
        i += 1;
    }
    let mut t: usize = 0;
    while t < ids.len()
        invariant
            0 <= t <= ids.len(),
            mask@.len() == n,
            all_below(ids@, n as int),
            forall|i: int| 0 <= i < n ==> mask@[i] == ids@.subrange(0, t as int).contains(i as usize),
        decreases ids.len() - t,
    {
        let x = ids[t];
        mask.set(x, true);
        proof {
            let before = ids@.subrange(0, t as int);
            let after = ids@.subrange(0, t + 1);
            assert(after =~= before.push(x));
            assert forall|i: int| 0 <= i < n implies mask@[i] == after.contains(i as usize) by {
                if before.contains(i as usize) {
                    let k = choose|k: int| 0 <= k < before.len() && before[k] == i as usize;
                    assert(after[k] == i as usize);
                }
                if i == x {
                    assert(after[t as int] == x);
                }
            }
        }
        t += 1;
    }
    proof {
        assert(ids@.subrange(0, ids@.len() as int) =~= ids@);
    }
    mask
}

/// The positions at which `mask` is set, in ascending order.
pub fn selected(mask: &Vec<bool>) -> (ids: Vec<usize>)
    ensures
        strictly_ascending(ids@),
        all_below(ids@, mask@.len() as int),
        forall|i: int| 0 <= i < mask@.len() ==> ids@.contains(i as usize) == mask@[i],
{
    let mut ids: Vec<usize> = Vec::new();
    let mut i: usize = 0;
    while i < mask.len()
        invariant
            0 <= i <= mask.len(),
            strictly_ascending(ids@),
            all_below(ids@, i as int),
            forall|k: int| 0 <= k < i ==> ids@.contains(k as usize) == mask@[k],
        decreases mask.len() - i,
    {
        if mask[i] {
            let ghost before = ids@;
            ids.push(i);
            proof {
                assert forall|k: int| 0 <= k < i + 1 implies ids@.contains(k as usize)
                    == mask@[k] by {
                    if before.contains(k as usize) {
                        let w = choose|w: int| 0 <= w < before.len() && before[w] == k as usize;
                        assert(ids@[w] == k as usize);
                    }
                    if k == i {
                        assert(ids@[before.len() as int] == i);
                    }
                }
            }
        }
        i += 1;
    }
    ids
}

/// The arena itself: the parent list of every node, in the order in which
/// the nodes were added.
pub struct Dag {
    parents: Vec<Vec<usize>>,
}

impl View for Dag {
    type V = Seq<Seq<usize>>;

    closed spec fn view(&self) -> Seq<Seq<usize>> {
        Seq::new(self.parents@.len(), |i: int| self.parents@[i]@)
    }
}

impl Dag {
    /// The invariant of the arena: parents precede their children.
    pub open spec fn wf(&self) -> bool {
        acyclic(self@)
    }

    /// A graph without nodes.
    pub fn new() -> (dag: Dag)
        ensures
            dag@ == Seq::<Seq<usize>>::empty(),
            dag.wf(),
    {
        let dag = Dag { parents: Vec::new() };
        assert(dag@ =~= Seq::<Seq<usize>>::empty());
        dag
    }

    /// The number of nodes.
    pub fn len(&self) -> (n: usize)
        ensures
            n == self@.len(),
    {
        self.parents.len()
    }

    /// The parents of node `i`, in the order in which they were given.
    pub fn parents(&self, i: usize) -> (ps: &Vec<usize>)
        requires
            i < self@.len(),
        ensures
            ps@ == self@[i as int],
    {
        &self.parents[i]
    }

    /// Adds a node with the given parents and returns its position.
    pub fn push(&mut self, parents: Vec<usize>) -> (id: usize)
        requires
            old(self).wf(),
            all_below(parents@, old(self)@.len() as int),
        ensures
            final(self).wf(),
            id == old(self)@.len(),
            final(self)@ == old(self)@.push(parents@),
    {
        let id = self.parents.len();
        self.parents.push(parents);
        assert(self@ =~= old(self)@.push(parents@));
        id
    }

    /// Whether `a` is an ancestor of `b`; every node is its own ancestor.
    pub fn is_ancestor(&self, a: usize, b: usize) -> (r: bool)
        requires
            self.wf(),
        ensures
            r == reaches(self@, a as int, b as int),
    {
        if a == b {
            return true;
        }
        if a > b || b >= self.parents.len() {
            proof {
                if reaches(self@, a as int, b as int) {
                    lemma_reaches_ordered(self@, a as int, b as int);
                }
            }
            return false;
        }
        // reach[k] says whether `a` is an ancestor of node `a + k`.
        let mut reach: Vec<bool> = Vec::new();
        reach.push(true);
        let mut i: usize = a + 1;
        while i <= b
            invariant
                self.wf(),
                a < i <= b + 1,
                b < self.parents@.len(),
                b < usize::MAX,
                reach@.len() == i - a,
                forall|k: int| 0 <= k < reach@.len() ==> reach@[k] == reaches(self@, a as int, a + k),
            decreases b + 1 - i,
        {
            let ps = &self.parents[i];
            let mut found = false;
            let mut j: usize = 0;
            while j < ps.len()
                invariant
                    self.wf(),
                    a < i <= b,
                    b < self.parents@.len(),
                    ps@ == self@[i as int],
                    0 <= j <= ps.len(),
                    reach@.len() == i - a,
                    forall|k: int|
                        0 <= k < reach@.len() ==> reach@[k] == reaches(self@, a as int, a + k),
                    found == exists|k: int|
                        0 <= k < j && reaches(self@, a as int, (#[trigger] ps@[k]) as int),
                decreases ps.len() - j,
            {
                let p = ps[j];
                assert(self@[i as int][j as int] < i);
                if p >= a && reach[p - a] {
                    found = true;
                } else {
                    proof {
                        if reaches(self@, a as int, p as int) {
                            lemma_reaches_ordered(self@, a as int, p as int);
                        }
                    }
                }
                j += 1;
            }
            proof {
                if found {
                    let k = choose|k: int|
                        0 <= k < ps@.len() && reaches(self@, a as int, (#[trigger] ps@[k]) as int);
                    assert(self@[i as int][k] < i);
                }
            }
            reach.push(found);
            i += 1;
        }
        reach[b - a]
    }

    /// Marks every node that is an ancestor of some member of `targets`.
    pub fn ancestors_of(&self, targets: &Vec<usize>) -> (mask: Vec<bool>)
        requires
            self.wf(),
            all_below(targets@, self@.len() as int),
        ensures
            mask@.len() == self@.len(),
            forall|i: int|
                0 <= i < mask@.len() ==> mask@[i] == reaches_any(self@, i, targets@),
    {
        let n = self.parents.len();
        let mut mask = members(targets, n);
        proof {
            assert forall|i: int| 0 <= i < n && mask@[i] implies reaches_any(self@, i, targets@) by {
                let t = choose|t: int| 0 <= t < targets@.len() && targets@[t] == i as usize;
                assert(reaches(self@, i, targets@[t] as int));
            }
        }
        let mut i: usize = n;
        while i > 0
            invariant
                self.wf(),
                n == self.parents@.len(),
                0 <= i <= n,
                mask@.len() == n,
                forall|t: int| 0 <= t < targets@.len() ==> mask@[(#[trigger] targets@[t]) as int],
                all_below(targets@, n as int),
                forall|k: int| 0 <= k < n && mask@[k] ==> reaches_any(self@, k, targets@),
                forall|c: int, j: int|
                    i <= c < n && 0 <= j < self@[c].len() && mask@[c] && (#[trigger] self@[c][j]) < c
                        ==> mask@[self@[c][j] as int],
            decreases i,
        {
            i -= 1;
            if mask[i] {
                let ps = &self.parents[i];
                let mut j: usize = 0;
                while j < ps.len()
                    invariant
                        self.wf(),
                        n == self.parents@.len(),
                        0 <= i < n,
                        mask@.len() == n,
                        mask@[i as int],
                        ps@ == self@[i as int],
                        0 <= j <= ps.len(),
                        forall|t: int|
                            0 <= t < targets@.len() ==> mask@[(#[trigger] targets@[t]) as int],
                        all_below(targets@, n as int),
                        forall|k: int| 0 <= k < n && mask@[k] ==> reaches_any(self@, k, targets@),
                        forall|c: int, k: int|
                            i < c < n && 0 <= k < self@[c].len() && mask@[c] && (
                            #[trigger] self@[c][k]) < c ==> mask@[self@[c][k] as int],
                        forall|k: int| 0 <= k < j ==> mask@[(#[trigger] ps@[k]) as int],
                    decreases ps.len() - j,
                {
                    let p = ps[j];
                    assert(self@[i as int][j as int] < i);
                    proof {
                        let t = choose|t: int|
                            0 <= t < targets@.len() && reaches(
                                self@,
                                i as int,
                                #[trigger] targets@[t] as int,
                            );
                        lemma_parent_reaches(self@, i as int, j as int);
                        lemma_reaches_transitive(self@, p as int, i as int, targets@[t] as int);
                    }
                    mask.set(p, true);
                    j += 1;
                }
            }
        }
        proof {
            assert forall|k: int| 0 <= k < n && reaches_any(self@, k, targets@) implies mask@[k] by {
                let t = choose|t: int|
                    0 <= t < targets@.len() && reaches(self@, k, #[trigger] targets@[t] as int);
                lemma_closed_under_ancestors(self@, mask@, k, targets@[t] as int);
            }
        }
        mask
    }

    /// Marks every node of `within` that descends from some member of
    /// `sources`. `within` must hold the parents of each of its members.
    pub fn descendants_of(&self, sources: &Vec<usize>, within: &Vec<bool>) -> (mask: Vec<bool>)
        requires
            self.wf(),
            all_below(sources@, self@.len() as int),
            within@.len() == self@.len(),
            forall|c: int, j: int|
                0 <= c < self@.len() && 0 <= j < self@[c].len() && within@[c] && (
                #[trigger] self@[c][j]) < c ==> within@[self@[c][j] as int],
        ensures
            mask@.len() == self@.len(),
            forall|i: int|
                0 <= i < mask@.len() ==> mask@[i] == (within@[i] && reached_from_any(
                    self@,
                    sources@,
                    i,
                )),
    {
        let n = self.parents.len();
        let from = members(sources, n);
        let mut mask: Vec<bool> = Vec::new();
        let mut i: usize = 0;
        while i < n
            invariant
                self.wf(),
                n == self.parents@.len(),
                0 <= i <= n,
                mask@.len() == i,
                from@.len() == n,
                within@.len() == n,
                all_below(sources@, n as int),
                forall|k: int| 0 <= k < n ==> from@[k] == sources@.contains(k as usize),
                forall|c: int, j: int|
                    0 <= c < n && 0 <= j < self@[c].len() && within@[c] && (#[trigger] self@[c][j])
                        < c ==> within@[self@[c][j] as int],
                forall|k: int|
                    0 <= k < i ==> mask@[k] == (within@[k] && reached_from_any(self@, sources@, k)),
            decreases n - i,
        {
            let ps = &self.parents[i];
            let mut found = from[i];
            let mut j: usize = 0;
            while j < ps.len()
                invariant
                    self.wf(),
                    n == self.parents@.len(),
                    0 <= i < n,
                    mask@.len() == i,
                    ps@ == self@[i as int],
                    0 <= j <= ps.len(),
                    found == (from@[i as int] || exists|k: int|
                        0 <= k < j && mask@[(#[trigger] ps@[k]) as int]),
                decreases ps.len() - j,
            {
                assert(self@[i as int][j as int] < i);
                if mask[ps[j]] {
                    found = true;
                }
                j += 1;
            }
            let hit = within[i] && found;
            proof {
                let g = self@;
                if hit {
                    if from@[i as int] {
                        let s = choose|s: int| 0 <= s < sources@.len() && sources@[s] == i;
                        assert(reaches(g, sources@[s] as int, i as int));
                    } else {
                        let k = choose|k: int|
                            0 <= k < ps@.len() && mask@[(#[trigger] ps@[k]) as int];
                        assert(g[i as int][k] < i);
                        let s = choose|s: int|
                            0 <= s < sources@.len() && reaches(
                                g,
                                #[trigger] sources@[s] as int,
                                ps@[k] as int,
                            );
                        lemma_parent_reaches(g, i as int, k);
                        lemma_reaches_transitive(g, sources@[s] as int, ps@[k] as int, i as int);
                    }
                }
                if within@[i as int] && reached_from_any(g, sources@, i as int) {
                    let s = choose|s: int|
                        0 <= s < sources@.len() && reaches(g, #[trigger] sources@[s] as int, i as int);
                    if sources@[s] != i {
                        let k = choose|k: int|
                            0 <= k < g[i as int].len() && (#[trigger] g[i as int][k]) < i && reaches(
                                g,
                                sources@[s] as int,
                                g[i as int][k] as int,
                            );
                        assert(mask@[ps@[k] as int]);
                    }
                }
            }
            mask.push(hit);
            i += 1;
        }
        mask
    }

    /// The nodes of `within` that list some member of `parents` among their
    /// parents, in ascending order.
    pub fn children_of(&self, parents: &Vec<usize>, within: &Vec<bool>) -> (children: Vec<usize>)
        requires
            self.wf(),
            within@.len() == self@.len(),
        ensures
            strictly_ascending(children@),
            all_below(children@, self@.len() as int),
            forall|c: usize|
                c < self@.len() ==> #[trigger] children@.contains(c) == (within@[c as int]
                    && exists|p: int|
                    0 <= p < parents@.len() && is_parent(
                        self@,
                        #[trigger] parents@[p] as int,
                        c as int,
                    )),
    {
        let n = self.parents.len();
        let mut mask: Vec<bool> = Vec::new();
        let mut c: usize = 0;
        while c < n
            invariant
                self.wf(),
                n == self.parents@.len(),
                within@.len() == n,
                0 <= c <= n,
                mask@.len() == c,
                forall|k: int|
                    0 <= k < c ==> mask@[k] == (within@[k] && exists|p: int|
                        0 <= p < parents@.len() && is_parent(self@, #[trigger] parents@[p] as int, k)),
            decreases n - c,
        {
            let ps = &self.parents[c];
            let mut found = false;
            let mut j: usize = 0;
            while j < ps.len()
                invariant
                    0 <= c < n,
                    n == self.parents@.len(),
                    ps@ == self@[c as int],
                    0 <= j <= ps.len(),
                    found == exists|k: int| 0 <= k < j && parents@.contains(#[trigger] ps@[k]),
                decreases ps.len() - j,
            {
                if contains(parents, ps[j]) {
                    found = true;
                }
                j += 1;
            }
            proof {
                let g = self@;
                if found {
                    let k = choose|k: int| 0 <= k < ps@.len() && parents@.contains(#[trigger] ps@[k]);
                    let p = choose|p: int| 0 <= p < parents@.len() && parents@[p] == ps@[k];
                    assert(g[c as int][k] == parents@[p]);
                    assert(is_parent(g, parents@[p] as int, c as int));
                }
                if exists|p: int|
                    0 <= p < parents@.len() && is_parent(g, #[trigger] parents@[p] as int, c as int) {
                    let p = choose|p: int|
                        0 <= p < parents@.len() && is_parent(g, #[trigger] parents@[p] as int, c as int);
                    let k = choose|k: int|
                        0 <= k < g[c as int].len() && #[trigger] g[c as int][k] == parents@[p];
                    assert(parents@.contains(ps@[k]));
                }
            }
            mask.push(within[c] && found);
            c += 1;
        }
        let children = selected(&mask);
        proof {
            assert forall|c: usize| c < self@.len() implies #[trigger] children@.contains(c) == (
            within@[c as int] && exists|p: int|
                0 <= p < parents@.len() && is_parent(
                    self@,
                    #[trigger] parents@[p] as int,
                    c as int,
                )) by {
                assert(children@.contains(c as int as usize) == mask@[c as int]);
            }
        }
        children
    }
}

} // verus!
