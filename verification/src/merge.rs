//! Reconciling two views that grew apart from a common base. What only one
//! side changed is taken from that side. A bookmark that both sides moved to
//! different commits points to all of them afterwards: nothing is picked.

use crate::dag::{all_below, same_ids, strictly_ascending};
use crate::store::{graph, CommitId, Store};
use crate::view::{
    anchors, bookmark_models, copy_ids, heads_among, lemma_targets_absent, lemma_targets_at,
    named_before, position_of, sorted_set, targets_of, valid_bookmarks, valid_view, Bookmark,
    BookmarkData, RepoView,
};
use vstd::prelude::*;

verus! {

/// `out` lists, in ascending order and each once, the members of `left`
/// and of `right`.
pub open spec fn union_of(left: Seq<CommitId>, right: Seq<CommitId>, out: Seq<CommitId>) -> bool {
    &&& strictly_ascending(out)
    &&& forall|c: CommitId| #[trigger] out.contains(c) == (left.contains(c) || right.contains(c))
}

/// How the targets of one bookmark are merged. Where both sides agree, or
/// only one side differs from the base, that is the result; where both
/// differ from the base and from each other, the result holds the targets of
/// both.
pub open spec fn targets_merged(
    base: Seq<CommitId>,
    left: Seq<CommitId>,
    right: Seq<CommitId>,
    out: Seq<CommitId>,
) -> bool {
    if left == right {
        out == left
    } else if left == base {
        out == right
    } else if right == base {
        out == left
    } else {
        union_of(left, right, out)
    }
}

/// Every name finds in `out` the merged targets of what it finds in the
/// base and on the two sides.
pub open spec fn bookmarks_merged(
    base: Seq<BookmarkData>,
    left: Seq<BookmarkData>,
    right: Seq<BookmarkData>,
    out: Seq<BookmarkData>,
) -> bool {
    forall|name: Seq<char>|
        targets_merged(
            targets_of(base, name),
            targets_of(left, name),
            targets_of(right, name),
            #[trigger] targets_of(out, name),
        )
}

/// The members of `xs` that survive a merge: those that the other side has
/// too, and those that were not in the base, so that the other side did not
/// remove them.
pub open spec fn kept(xs: Seq<CommitId>, base: Seq<CommitId>, other: Seq<CommitId>) -> Seq<CommitId>
    decreases xs.len(),
{
    if xs.len() == 0 {
        Seq::empty()
    } else {
        let rest = kept(xs.drop_last(), base, other);
        if other.contains(xs.last()) || !base.contains(xs.last()) {
            rest.push(xs.last())
        } else {
            rest
        }
    }
}

/// The working copy after a merge: that of the right side if the left side
/// left it alone, else that of the left side.
pub open spec fn working_copy_merged(base: CommitId, left: CommitId, right: CommitId) -> CommitId {
    if left == base {
        right
    } else {
        left
    }
}

/// Two concurrent operations that point the same bookmark at different
/// commits leave it conflicted: after the merge it points at both.
pub proof fn law_concurrent_moves_conflict(
    base: Seq<BookmarkData>,
    left: Seq<BookmarkData>,
    right: Seq<BookmarkData>,
    out: Seq<BookmarkData>,
    name: Seq<char>,
    a: CommitId,
    b: CommitId,
)
    requires
        bookmarks_merged(base, left, right, out),
        targets_of(left, name) == seq![a],
        targets_of(right, name) == seq![b],
        a != b,
        targets_of(base, name) != seq![a],
        targets_of(base, name) != seq![b],
    ensures
        targets_of(out, name).len() == 2,
        targets_of(out, name).contains(a),
        targets_of(out, name).contains(b),
{
    let l = seq![a];
    let r = seq![b];
    let o = targets_of(out, name);
    assert(l[0] == a && r[0] == b);
    assert(l != r);
    assert(targets_merged(targets_of(base, name), l, r, o));
    assert(union_of(l, r, o));
    assert(l.contains(a));
    assert(r.contains(b));
    assert(o.contains(a));
    assert(o.contains(b));
    let i = choose|i: int| 0 <= i < o.len() && o[i] == a;
    let j = choose|j: int| 0 <= j < o.len() && o[j] == b;
    if o.len() > 2 {
        let k: int = if i != 0 && j != 0 {
            0
        } else if i != 1 && j != 1 {
            1
        } else {
            2
        };
        assert(o.contains(o[k]));
        assert(l.contains(o[k]) || r.contains(o[k]));
        if l.contains(o[k]) {
            let w = choose|w: int| 0 <= w < l.len() && l[w] == o[k];
            assert(o[k] == o[i]);
        } else {
            let w = choose|w: int| 0 <= w < r.len() && r[w] == o[k];
            assert(o[k] == o[j]);
        }
    }
}

/// The members of `xs` that survive a merge.
fn keep(xs: &Vec<CommitId>, base: &Vec<CommitId>, other: &Vec<CommitId>) -> (out: Vec<CommitId>)
    ensures
        out@ == kept(xs@, base@, other@),
        forall|i: int| 0 <= i < out@.len() ==> xs@.contains(#[trigger] out@[i]),
{
    let mut out: Vec<CommitId> = Vec::new();
    let mut i: usize = 0;
    while i < xs.len()
        invariant
            0 <= i <= xs.len(),
            out@ == kept(xs@.subrange(0, i as int), base@, other@),
            forall|k: int| 0 <= k < out@.len() ==> xs@.contains(#[trigger] out@[k]),
        decreases xs.len() - i,
    {
        let x = xs[i];
        proof {
            assert(xs@.subrange(0, i + 1).drop_last() =~= xs@.subrange(0, i as int));
        }
        if crate::dag::contains(other, x) || !crate::dag::contains(base, x) {
            out.push(x);
        }
        i += 1;
    }
    proof {
        assert(xs@.subrange(0, xs@.len() as int) =~= xs@);
    }
    out
}

/// The merged targets of one bookmark.
fn merge_targets(base: &Vec<CommitId>, left: &Vec<CommitId>, right: &Vec<CommitId>, n: usize) -> (out:
    Vec<CommitId>)
    requires
        strictly_ascending(left@),
        strictly_ascending(right@),
        all_below(left@, n as int),
        all_below(right@, n as int),
    ensures
        targets_merged(base@, left@, right@, out@),
        strictly_ascending(out@),
        all_below(out@, n as int),
{
    if same_ids(left, right) {
        copy_ids(left)
    } else if same_ids(left, base) {
        copy_ids(right)
    } else if same_ids(right, base) {
        copy_ids(left)
    } else {
        let mut both = copy_ids(left);
        let mut more = copy_ids(right);
        both.append(&mut more);
        let out = sorted_set(&both, n);
        proof {
            assert(both@ =~= left@ + right@);
            assert forall|c: CommitId| #[trigger] out@.contains(c) == (left@.contains(c)
                || right@.contains(c)) by {
                if out@.contains(c) {
                    let w = choose|w: int| 0 <= w < out@.len() && out@[w] == c;
                    assert(c < n);
                    assert(both@.contains(c));
                    let k = choose|k: int| 0 <= k < both@.len() && both@[k] == c;
                    if k < left@.len() {
                        assert(left@[k] == c);
                    } else {
                        assert(right@[k - left@.len()] == c);
                    }
                }
                if left@.contains(c) {
                    let k = choose|k: int| 0 <= k < left@.len() && left@[k] == c;
                    assert(both@[k] == c);
                    assert(c < n);
                }
                if right@.contains(c) {
                    let k = choose|k: int| 0 <= k < right@.len() && right@[k] == c;
                    assert(both@[left@.len() + k] == c);
                    assert(c < n);
                }
            }
        }
        out
    }
}

/// No two bookmarks have the same name.
pub open spec fn distinct_names(bookmarks: Seq<BookmarkData>) -> bool {
    forall|a: int, b: int| 0 <= a < b < bookmarks.len() ==> bookmarks[a].name != bookmarks[b].name
}

/// The targets that `name` finds among `bookmarks`; none if there is no
/// such bookmark.
pub fn targets_named(bookmarks: &Vec<Bookmark>, name: &String) -> (out: Vec<CommitId>)
    requires
        distinct_names(bookmark_models(bookmarks@)),
    ensures
        out@ == targets_of(bookmark_models(bookmarks@), name@),
{
    let ghost models = bookmark_models(bookmarks@);
    match position_of(bookmarks, name) {
        Some(i) => {
            proof {
                lemma_targets_at(models, i as int);
            }
            copy_ids(&bookmarks[i].targets)
        },
        None => {
            proof {
                lemma_targets_absent(models, name@);
            }
            Vec::new()
        },
    }
}

/// Pushing a bookmark changes what its own name finds, and nothing else.
proof fn lemma_targets_after_push(bookmarks: Seq<BookmarkData>, b: BookmarkData, name: Seq<char>)
    ensures
        targets_of(bookmarks.push(b), name) == if b.name == name {
            b.targets
        } else {
            targets_of(bookmarks, name)
        },
{
    assert(bookmarks.push(b).drop_last() =~= bookmarks);
}

/// The merged bookmarks.
#[verifier::loop_isolation(false)]
fn merge_bookmarks(
    base: &Vec<Bookmark>,
    left: &Vec<Bookmark>,
    right: &Vec<Bookmark>,
    n: usize,
) -> (out: Vec<Bookmark>)
    requires
        valid_bookmarks(bookmark_models(base@), n as int),
        valid_bookmarks(bookmark_models(left@), n as int),
        valid_bookmarks(bookmark_models(right@), n as int),
    ensures
        valid_bookmarks(bookmark_models(out@), n as int),
        bookmarks_merged(
            bookmark_models(base@),
            bookmark_models(left@),
            bookmark_models(right@),
            bookmark_models(out@),
        ),
{
    let ghost mb = bookmark_models(base@);
    let ghost ml = bookmark_models(left@);
    let ghost mr = bookmark_models(right@);
    let mut out: Vec<Bookmark> = Vec::new();
    let mut i: usize = 0;
    while i < left.len()
        invariant
            0 <= i <= left.len(),
            valid_bookmarks(bookmark_models(out@), n as int),
            forall|x: int|
                0 <= x < out@.len() ==> named_before(ml, i as int, (#[trigger] out@[x]).name@),
            forall|k: int|
                0 <= k < i ==> targets_merged(
                    targets_of(mb, ml[k].name),
                    targets_of(ml, ml[k].name),
                    targets_of(mr, ml[k].name),
                    #[trigger] targets_of(bookmark_models(out@), ml[k].name),
                ),
        decreases left.len() - i,
    {
        let b = &left[i];
        let ghost name = b.name@;
        let ghost before = bookmark_models(out@);
        assert(ml[i as int] == b@);
        let in_base = targets_named(base, &b.name);
        let in_right = targets_named(right, &b.name);
        proof {
            lemma_targets_at(ml, i as int);
            if in_right@.len() > 0 {
                lemma_found_is_valid(mr, name, n as int);
            }
        }
        let merged = merge_targets(&in_base, &b.targets, &in_right, n);
        proof {
            // No bookmark of that name has been written yet.
            assert forall|x: int| 0 <= x < before.len() implies (#[trigger] before[x]).name
                != name by {
                assert(named_before(ml, i as int, out@[x].name@));
                let k = choose|k: int| 0 <= k < i && (#[trigger] ml[k]).name == out@[x].name@;
                assert(ml[k].name != ml[i as int].name);
            }
            lemma_targets_absent(before, name);
        }
        if merged.len() > 0 {
            let entry = Bookmark { name: b.name.clone(), targets: merged };
            out.push(entry);
            proof {
                let after = bookmark_models(out@);
                assert(after =~= before.push(entry@));
                assert forall|k: int| 0 <= k < i + 1 implies targets_merged(
                    targets_of(mb, ml[k].name),
                    targets_of(ml, ml[k].name),
                    targets_of(mr, ml[k].name),
                    #[trigger] targets_of(after, ml[k].name),
                ) by {
                    lemma_targets_after_push(before, entry@, ml[k].name);
                    if k < i {
                        assert(ml[k].name != ml[i as int].name);
                    }
                }
                assert forall|x: int| 0 <= x < out@.len() implies named_before(
                    ml,
                    i + 1,
                    (#[trigger] out@[x]).name@,
                ) by {
                    if x < before.len() {
                        assert(out@[x]@ == before[x]);
                        assert(named_before(ml, i as int, before[x].name));
                        let k = choose|k: int|
                            0 <= k < i && (#[trigger] ml[k]).name == before[x].name;
                        assert(ml[k].name == out@[x].name@);
                    } else {
                        assert(ml[i as int].name == out@[x].name@);
                    }
                }
            }
        } else {
            proof {
                assert(merged@ =~= Seq::<CommitId>::empty());
            }
        }
        i += 1;
    }
    let mut j: usize = 0;
    while j < right.len()
        invariant
            0 <= j <= right.len(),
            valid_bookmarks(bookmark_models(out@), n as int),
            forall|x: int|
                0 <= x < out@.len() ==> named_before(
                    ml,
                    ml.len() as int,
                    (#[trigger] out@[x]).name@,
                ) || named_before(mr, j as int, out@[x].name@),
            forall|k: int|
                0 <= k < ml.len() ==> targets_merged(
                    targets_of(mb, ml[k].name),
                    targets_of(ml, ml[k].name),
                    targets_of(mr, ml[k].name),
                    #[trigger] targets_of(bookmark_models(out@), ml[k].name),
                ),
            forall|k: int|
                0 <= k < j ==> targets_merged(
                    targets_of(mb, mr[k].name),
                    targets_of(ml, mr[k].name),
                    targets_of(mr, mr[k].name),
                    #[trigger] targets_of(bookmark_models(out@), mr[k].name),
                ),
        decreases right.len() - j,
    {
        let b = &right[j];
        let ghost name = b.name@;
        let ghost before = bookmark_models(out@);
        assert(mr[j as int] == b@);
        match position_of(left, &b.name) {
            Some(k) => {
                assert(ml[k as int].name == name);
                proof {
                    assert forall|x: int| 0 <= x < out@.len() implies named_before(
                        ml,
                        ml.len() as int,
                        (#[trigger] out@[x]).name@,
                    ) || named_before(mr, j + 1, out@[x].name@) by {
                        if !named_before(ml, ml.len() as int, out@[x].name@) {
                            let w = choose|w: int|
                                0 <= w < j && (#[trigger] mr[w]).name == out@[x].name@;
                            assert(mr[w].name == out@[x].name@);
                        }
                    }
                }
            },
            None => {
                let in_base = targets_named(base, &b.name);
                let nothing: Vec<CommitId> = Vec::new();
                proof {
                    lemma_targets_at(mr, j as int);
                    lemma_targets_absent(ml, name);
                }
                let merged = merge_targets(&in_base, &nothing, &b.targets, n);
                proof {
                    assert forall|x: int| 0 <= x < before.len() implies (#[trigger] before[x]).name
                        != name by {
                        assert(before[x] == out@[x]@);
                        if named_before(ml, ml.len() as int, out@[x].name@) {
                            let k = choose|k: int|
                                0 <= k < ml.len() && (#[trigger] ml[k]).name == out@[x].name@;
                            assert(ml[k].name != name);
                        } else {
                            let k = choose|k: int|
                                0 <= k < j && (#[trigger] mr[k]).name == out@[x].name@;
                            assert(mr[k].name != mr[j as int].name);
                        }
                    }
                    lemma_targets_absent(before, name);
                }
                if merged.len() > 0 {
                    let entry = Bookmark { name: b.name.clone(), targets: merged };
                    out.push(entry);
                    proof {
                        let after = bookmark_models(out@);
                        assert(after =~= before.push(entry@));
                        assert forall|k: int| 0 <= k < ml.len() implies targets_merged(
                            targets_of(mb, ml[k].name),
                            targets_of(ml, ml[k].name),
                            targets_of(mr, ml[k].name),
                            #[trigger] targets_of(after, ml[k].name),
                        ) by {
                            lemma_targets_after_push(before, entry@, ml[k].name);
                        }
                        assert forall|k: int| 0 <= k < j + 1 implies targets_merged(
                            targets_of(mb, mr[k].name),
                            targets_of(ml, mr[k].name),
                            targets_of(mr, mr[k].name),
                            #[trigger] targets_of(after, mr[k].name),
                        ) by {
                            lemma_targets_after_push(before, entry@, mr[k].name);
                            if k < j {
                                assert(mr[k].name != mr[j as int].name);
                            }
                        }
                        assert forall|x: int| 0 <= x < out@.len() implies named_before(
                            ml,
                            ml.len() as int,
                            (#[trigger] out@[x]).name@,
                        ) || named_before(mr, j + 1, out@[x].name@) by {
                            if x < before.len() {
                                assert(out@[x]@ == before[x]);
                                if !named_before(ml, ml.len() as int, before[x].name) {
                                    assert(named_before(mr, j as int, before[x].name));
                                    let k = choose|k: int|
                                        0 <= k < j && (#[trigger] mr[k]).name == before[x].name;
                                    assert(mr[k].name == out@[x].name@);
                                }
                            } else {
                                assert(mr[j as int].name == out@[x].name@);
                            }
                        }
                    }
                } else {
                    proof {
                        assert(merged@ =~= Seq::<CommitId>::empty());
                    }
                }
            },
        }
        j += 1;
    }
    proof {
        let after = bookmark_models(out@);
        assert forall|name: Seq<char>|
            targets_merged(
                targets_of(mb, name),
                targets_of(ml, name),
                targets_of(mr, name),
                #[trigger] targets_of(after, name),
            ) by {
            if named_before(ml, ml.len() as int, name) {
                let k = choose|k: int| 0 <= k < ml.len() && (#[trigger] ml[k]).name == name;
                assert(targets_merged(
                    targets_of(mb, ml[k].name),
                    targets_of(ml, ml[k].name),
                    targets_of(mr, ml[k].name),
                    targets_of(after, ml[k].name),
                ));
            } else if named_before(mr, mr.len() as int, name) {
                let k = choose|k: int| 0 <= k < mr.len() && (#[trigger] mr[k]).name == name;
                assert(targets_merged(
                    targets_of(mb, mr[k].name),
                    targets_of(ml, mr[k].name),
                    targets_of(mr, mr[k].name),
                    targets_of(after, mr[k].name),
                ));
            } else {
                lemma_targets_absent(ml, name);
                lemma_targets_absent(mr, name);
                assert forall|x: int| 0 <= x < after.len() implies (#[trigger] after[x]).name
                    != name by {
                    assert(after[x] == out@[x]@);
                    if after[x].name == name {
                        if named_before(ml, ml.len() as int, out@[x].name@) {
                            let k = choose|k: int|
                                0 <= k < ml.len() && (#[trigger] ml[k]).name == out@[x].name@;
                        } else {
                            let k = choose|k: int|
                                0 <= k < mr.len() && (#[trigger] mr[k]).name == out@[x].name@;
                        }
                    }
                }
                lemma_targets_absent(after, name);
            }
        }
    }
    out
}

/// What a name finds among valid bookmarks is in ascending order and names
/// commits.
proof fn lemma_found_is_valid(bookmarks: Seq<BookmarkData>, name: Seq<char>, n: int)
    requires
        valid_bookmarks(bookmarks, n),
    ensures
        strictly_ascending(targets_of(bookmarks, name)),
        all_below(targets_of(bookmarks, name), n),
    decreases bookmarks.len(),
{
    if bookmarks.len() > 0 {
        if bookmarks.last().name == name {
            assert(bookmarks.last() == bookmarks[bookmarks.len() - 1]);
        } else {
            let rest = bookmarks.drop_last();
            assert forall|i: int| 0 <= i < rest.len() implies {
                &&& (#[trigger] rest[i]).targets.len() >= 1
                &&& strictly_ascending(rest[i].targets)
                &&& all_below(rest[i].targets, n)
            } by {
                assert(rest[i] == bookmarks[i]);
            }
            assert forall|a: int, b: int| 0 <= a < b < rest.len() implies rest[a].name
                != rest[b].name by {
                assert(rest[a] == bookmarks[a] && rest[b] == bookmarks[b]);
            }
            lemma_found_is_valid(rest, name, n);
        }
    }
}

/// Merges two views that grew from the view `base`.
///
/// A head survives if both sides have it, or if one side has it and it was
/// not in the base; what the bookmarks and the working copy point at stays
/// visible. The working copy is that of the right side if the left side did
/// not move it, else that of the left.
pub fn merge_views(store: &Store, base: &RepoView, left: &RepoView, right: &RepoView) -> (out:
    RepoView)
    requires
        store.wf(),
        valid_view(store@, base@),
        valid_view(store@, left@),
        valid_view(store@, right@),
    ensures
        valid_view(store@, out@),
        bookmarks_merged(base@.bookmarks, left@.bookmarks, right@.bookmarks, out@.bookmarks),
        out@.working_copy == working_copy_merged(
            base@.working_copy,
            left@.working_copy,
            right@.working_copy,
        ),
        heads_among(
            graph(store@),
            anchors(
                kept(left@.heads, base@.heads, right@.heads) + kept(
                    right@.heads,
                    base@.heads,
                    left@.heads,
                ),
                out@.bookmarks,
                out@.working_copy,
            ),
            out@.heads,
        ),
{
    let n = store.len();
    let bookmarks = merge_bookmarks(&base.bookmarks, &left.bookmarks, &right.bookmarks, n);
    let working_copy = if left.working_copy == base.working_copy {
        right.working_copy
    } else {
        left.working_copy
    };
    let mut candidates = keep(&left.heads, &base.heads, &right.heads);
    let mut more = keep(&right.heads, &base.heads, &left.heads);
    proof {
        assert forall|i: int| 0 <= i < candidates@.len() implies (#[trigger] candidates@[i])
            < n by {
            let w = choose|w: int| 0 <= w < left@.heads.len() && left@.heads[w] == candidates@[i];
        }
        assert forall|i: int| 0 <= i < more@.len() implies (#[trigger] more@[i]) < n by {
            let w = choose|w: int| 0 <= w < right@.heads.len() && right@.heads[w] == more@[i];
        }
    }
    let ghost first = candidates@;
    let ghost second = more@;
    candidates.append(&mut more);
    proof {
        assert(candidates@ =~= first + second);
    }
    RepoView::assemble(store, &candidates, bookmarks, working_copy)
}

} // verus!
