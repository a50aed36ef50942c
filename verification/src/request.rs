//! A request for a new commit as the caller states it: revsets, not yet
//! resolved, and the two flags for the working copy.

use crate::error::{Error, UsageProblem};
use crate::plan::{plan_insertion, plan_made, refusal, EditMode, Plan};
use crate::revset::{
    all_flags, all_found, evaluate_all, failure, first_failing, none_fails, texts_of,
};
use crate::store::{CommitData, CommitId, Store};
use crate::view::{valid_view, RepoView, ViewData};
use vstd::prelude::*;

verus! {

/// A request for a new commit.
pub struct Request {
    /// The revsets for the parents of the new commit. With none, and with
    /// no insertion target, the parent is the working copy.
    pub parents: Vec<String>,
    /// The revsets for the commits after which the new commit is inserted.
    pub insert_after: Vec<String>,
    /// The revsets for the commits before which the new commit is inserted.
    pub insert_before: Vec<String>,
    /// Check the new commit out. This is what happens anyway.
    pub edit: bool,
    /// Leave the working copy where it is.
    pub no_edit: bool,
    /// The description of the new commit.
    pub description: String,
}

/// What becomes of the working copy: it moves to the new commit unless the
/// request says otherwise.
pub open spec fn edit_mode_of(no_edit: bool) -> EditMode {
    if no_edit {
        EditMode::NoEdit
    } else {
        EditMode::Edit
    }
}

/// Two revsets without `all:` gave the same commit.
pub open spec fn repeats(ids: Seq<CommitId>, flags: Seq<bool>) -> bool {
    exists|i: int, j: int|
        0 <= i < j < ids.len() && #[trigger] ids[i] == #[trigger] ids[j] && !flags[i] && !flags[j]
}

/// The revsets that the parents of the new commit are taken from as they
/// stand: those of `insert_after` if there are any, none if the parents are
/// those of the `insert_before` targets, else the positional ones.
pub open spec fn stated_parents(
    parents: Seq<Seq<char>>,
    insert_after: Seq<Seq<char>>,
    insert_before: Seq<Seq<char>>,
) -> Seq<Seq<char>> {
    if insert_after.len() > 0 {
        insert_after
    } else if insert_before.len() > 0 {
        Seq::empty()
    } else {
        parents
    }
}

/// `e` is the error of the first revset in `texts` that fails.
pub open spec fn first_failure(s: Seq<CommitData>, v: ViewData, texts: Seq<Seq<char>>, e: Error) -> bool {
    exists|i: int| first_failing(s, v, texts, i) && failure(s, v, #[trigger] texts[i], e)
}

/// What planning a request gives in the view `v` of the store `s`.
///
/// Refused, in this order: `edit` together with `no_edit`; positional
/// parents together with an insertion target; the first revset that names
/// nothing or is ambiguous, the positional ones first, then those of
/// `insert_after`, then those of `insert_before`; what the plan itself
/// refuses; a parent that two revsets without `all:` both gave. The options
/// are looked at before any revset is resolved.
pub open spec fn planning(
    s: Seq<CommitData>,
    v: ViewData,
    parents: Seq<Seq<char>>,
    insert_after: Seq<Seq<char>>,
    insert_before: Seq<Seq<char>>,
    edit: bool,
    no_edit: bool,
    r: Result<(Plan, EditMode), Error>,
) -> bool {
    let ps = all_found(s, v, parents);
    let ia = all_found(s, v, insert_after);
    let ib = all_found(s, v, insert_before);
    let stated = stated_parents(parents, insert_after, insert_before);
    if edit && no_edit {
        r == Err::<(Plan, EditMode), Error>(
            Error::UsageError { problem: UsageProblem::EditWithNoEdit },
        )
    } else if parents.len() > 0 && (insert_after.len() > 0 || insert_before.len() > 0) {
        r == Err::<(Plan, EditMode), Error>(
            Error::UsageError { problem: UsageProblem::ParentsWithInsertion },
        )
    } else if !none_fails(s, v, parents) {
        r is Err && first_failure(s, v, parents, r->Err_0)
    } else if !none_fails(s, v, insert_after) {
        r is Err && first_failure(s, v, insert_after, r->Err_0)
    } else if !none_fails(s, v, insert_before) {
        r is Err && first_failure(s, v, insert_before, r->Err_0)
    } else if refusal(s, v, ps, ia, ib) is Some {
        r is Err && refusal(s, v, ps, ia, ib) == Some(r->Err_0)
    } else if repeats(all_found(s, v, stated), all_flags(s, v, stated)) {
        r == Err::<(Plan, EditMode), Error>(
            Error::UsageError { problem: UsageProblem::RepeatedParent },
        )
    } else {
        &&& r is Ok
        &&& plan_made(s, v, ps, ia, ib, r->Ok_0.0)
        &&& r->Ok_0.1 == edit_mode_of(no_edit)
    }
}

/// Whether two revsets without `all:` gave the same commit.
fn has_repeat(ids: &Vec<CommitId>, flags: &Vec<bool>) -> (r: bool)
    requires
        ids@.len() == flags@.len(),
    ensures
        r == repeats(ids@, flags@),
{
    let mut j: usize = 0;
    while j < ids.len()
        invariant
            ids@.len() == flags@.len(),
            0 <= j <= ids.len(),
            forall|a: int, b: int|
                0 <= a < b < j ==> !(#[trigger] ids@[a] == #[trigger] ids@[b] && !flags@[a]
                    && !flags@[b]),
        decreases ids.len() - j,
    {
        let mut i: usize = 0;
        while i < j
            invariant
                ids@.len() == flags@.len(),
                0 <= i <= j < ids.len(),
                forall|a: int|
                    0 <= a < i ==> !(#[trigger] ids@[a] == ids@[j as int] && !flags@[a]
                        && !flags@[j as int]),
            decreases j - i,
        {
            if ids[i] == ids[j] && !flags[i] && !flags[j] {
                return true;
            }
            i += 1;
        }
        j += 1;
    }
    false
}

/// The lists of flags and of commits that a list of revsets gives are of
/// the same length.
pub proof fn lemma_flags_len(s: Seq<CommitData>, v: ViewData, texts: Seq<Seq<char>>)
    ensures
        all_flags(s, v, texts).len() == all_found(s, v, texts).len(),
    decreases texts.len(),
{
    if texts.len() > 0 {
        lemma_flags_len(s, v, texts.drop_last());
    }
}

/// Plans the new commit that a request asks for: resolves its revsets in
/// the view `view` of `store`, and plans the insertion.
pub fn plan_new_commit(store: &Store, view: &RepoView, request: &Request) -> (r: Result<
    (Plan, EditMode),
    Error,
>)
    requires
        store.wf(),
        valid_view(store@, view@),
    ensures
        planning(
            store@,
            view@,
            texts_of(request.parents@),
            texts_of(request.insert_after@),
            texts_of(request.insert_before@),
            request.edit,
            request.no_edit,
            r,
        ),
{
    let ghost s = store@;
    let ghost v = view@;
    let ghost tp = texts_of(request.parents@);
    let ghost ta = texts_of(request.insert_after@);
    let ghost tb = texts_of(request.insert_before@);
    if request.edit && request.no_edit {
        return Err(Error::UsageError { problem: UsageProblem::EditWithNoEdit });
    }
    if request.parents.len() > 0 && (request.insert_after.len() > 0
        || request.insert_before.len() > 0) {
        return Err(Error::UsageError { problem: UsageProblem::ParentsWithInsertion });
    }
    let (parents, parent_flags) = match evaluate_all(store, view, &request.parents) {
        Ok(found) => found,
        Err(e) => {
            return Err(e);
        },
    };
    let (after, after_flags) = match evaluate_all(store, view, &request.insert_after) {
        Ok(found) => found,
        Err(e) => {
            return Err(e);
        },
    };
    let (before, _) = match evaluate_all(store, view, &request.insert_before) {
        Ok(found) => found,
        Err(e) => {
            return Err(e);
        },
    };
    let plan = match plan_insertion(store, view, &parents, &after, &before) {
        Ok(plan) => plan,
        Err(e) => {
            return Err(e);
        },
    };
    proof {
        lemma_flags_len(s, v, tp);
        lemma_flags_len(s, v, ta);
        if after@.len() == 0 && before@.len() > 0 {
            assert(!repeats(Seq::<CommitId>::empty(), Seq::<bool>::empty()));
        }
    }
    let repeated = if after.len() > 0 {
        has_repeat(&after, &after_flags)
    } else if before.len() > 0 {
        false
    } else {
        has_repeat(&parents, &parent_flags)
    };
    proof {
        lemma_found_empty(s, v, ta);
        lemma_found_empty(s, v, tb);
        lemma_found_empty(s, v, tp);
    }
    if repeated {
        return Err(Error::UsageError { problem: UsageProblem::RepeatedParent });
    }
    let mode = if request.no_edit {
        EditMode::NoEdit
    } else {
        EditMode::Edit
    };
    Ok((plan, mode))
}

/// Revsets of which none fails give no commit only if there are none.
pub proof fn lemma_found_empty(s: Seq<CommitData>, v: ViewData, texts: Seq<Seq<char>>)
    requires
        none_fails(s, v, texts),
    ensures
        (all_found(s, v, texts).len() == 0) == (texts.len() == 0),
        texts.len() == 0 ==> all_found(s, v, texts) == Seq::<CommitId>::empty() && all_flags(
            s,
            v,
            texts,
        ) == Seq::<bool>::empty(),
    decreases texts.len(),
{
    if texts.len() > 0 {
        assert(!crate::revset::fails(s, v, texts[texts.len() - 1]));
    }
}

} // verus!
