use jj_core::error::{AmbiguityReason, Error, Remedy};
use jj_core::merge::merge_views;
use jj_core::plan::{plan_insertion, EditMode};
use jj_core::repo::{carried, proper_descendants, Repo};
use jj_core::request::{plan_new_commit, Request};
use jj_core::revset::{evaluate, evaluate_all, resolve, ResolvedSet};
use jj_core::store::Store;
use jj_core::summary::{explain, summarize};
use jj_core::view::{heads_of, sorted_set, with_bookmark, Bookmark, RepoView};

fn request(description: &str, parents: &[&str], after: &[&str], before: &[&str]) -> Request {
    let strings = |texts: &[&str]| texts.iter().map(|t| t.to_string()).collect::<Vec<String>>();
    Request {
        parents: strings(parents),
        insert_after: strings(after),
        insert_before: strings(before),
        edit: false,
        no_edit: false,
        description: description.to_string(),
    }
}

fn create(repo: &mut Repo, description: &str, parents: &[&str]) -> usize {
    let at = repo.reconcile();
    assert!(repo.has_room());
    repo.create_commit(at, &request(description, parents, &[], &[])).unwrap().commit
}

fn bookmark(name: &str, targets: &[usize]) -> Bookmark {
    Bookmark { name: name.to_string(), targets: targets.to_vec() }
}

fn targets(view: &RepoView, name: &str) -> Vec<usize> {
    view.bookmarks.iter().find(|b| b.name == name).map(|b| b.targets.clone()).unwrap_or_default()
}

#[test]
fn new_repository_has_one_operation() {
    let mut repo = Repo::new();
    assert_eq!(repo.operation_count(), 1);
    assert_eq!(repo.head_operations(), &vec![0]);
    assert_eq!(repo.store().len(), 1);
    let view = repo.view_of(0);
    assert_eq!(view.heads, vec![0]);
    assert!(view.bookmarks.is_empty());
    assert_eq!(view.working_copy, 0);
    assert!(repo.has_room());
    assert_eq!(repo.reconcile(), 0);
    assert_eq!(repo.operation_count(), 1);
    let initial = RepoView::initial();
    assert_eq!(initial.heads, vec![0]);
}

#[test]
fn every_command_records_one_operation_after_the_one_it_ran_at() {
    let mut repo = Repo::new();
    let a = create(&mut repo, "a", &[]);
    assert_eq!(repo.operation_count(), 2);
    assert_eq!(repo.head_operations(), &vec![1]);
    assert!(repo.is_operation_ancestor(0, 1));
    assert!(!repo.is_operation_ancestor(1, 0));
    // A command that is pinned to an older operation makes a second head.
    let pinned = repo.create_commit(0, &request("b", &[], &[], &[])).unwrap();
    assert_eq!(pinned.operation, 2);
    assert_eq!(repo.head_operations(), &vec![1, 2]);
    assert!(repo.divergent(1, 2));
    assert!(!repo.divergent(0, 2));
    assert_eq!(repo.merge_base(1, 2), 0);
    assert_eq!(repo.merge_base(1, 1), 1);
    assert_eq!(repo.merge_base(0, 2), 0);
    // The pinned command did not see `a`.
    assert_eq!(repo.view_of(2).heads, vec![pinned.commit]);
    // Observing the log merges the two.
    let merged = repo.reconcile();
    assert_eq!(merged, 3);
    assert_eq!(repo.head_operations(), &vec![3]);
    assert_eq!(repo.view_of(3).heads, vec![a, pinned.commit]);
    assert_eq!(repo.view_of(3).working_copy, a);
    assert_eq!(repo.merge_base(3, 2), 2);
    assert_eq!(repo.reconcile(), 3);
    assert_eq!(repo.operation_count(), 4);
}

#[test]
fn a_refused_request_changes_nothing() {
    let mut repo = Repo::new();
    let a = create(&mut repo, "a", &[]);
    let c = create(&mut repo, "c", &[]);
    let at = repo.reconcile();
    let commits = repo.store().len();
    let operations = repo.operation_count();
    let spelled = |id: usize| jj_core::text::spell_commit(id).iter().collect::<String>();
    let after = [spelled(a), spelled(c)];
    let refused = repo.create_commit(at, &request("g", &[], &[&after[0], &after[1]], &[]));
    assert_eq!(refused.err(), Some(Error::LoopError { commit: c }));
    assert_eq!(repo.store().len(), commits);
    assert_eq!(repo.operation_count(), operations);
    assert_eq!(repo.head_operations(), &vec![at]);
    assert_eq!(repo.view_of(at).heads, vec![c]);
}

#[test]
fn describe_rewrites_the_commit_and_its_descendants() {
    let mut repo = Repo::new();
    let a = create(&mut repo, "a", &[]);
    let b = create(&mut repo, "b", &[]);
    let c = create(&mut repo, "c", &["root()"]);
    let at = repo.reconcile();
    repo.set_bookmark(at, "here", b);
    let at = repo.reconcile();
    let out = repo.describe(at, a, "first".to_string()).unwrap();
    assert_eq!(out.rebase, vec![b]);
    assert_eq!(out.table[0], 0);
    assert_eq!(out.table[a], out.commit);
    assert_eq!(out.table[c], c);
    let store = repo.store();
    assert_eq!(store.description_of(out.commit), "first");
    assert_eq!(store.change_of(out.commit), store.change_of(a));
    assert_eq!(store.parents_of(out.commit), &vec![0]);
    let rewritten = out.table[b];
    assert_ne!(rewritten, b);
    assert_eq!(store.description_of(rewritten), "b");
    assert_eq!(store.change_of(rewritten), store.change_of(b));
    assert_eq!(store.parents_of(rewritten), &vec![out.commit]);
    let view = repo.view_of(out.operation);
    assert_eq!(view.heads, vec![c, rewritten]);
    assert_eq!(targets(view, "here"), vec![rewritten]);
    assert_eq!(view.working_copy, c);
    // The old commits are still stored.
    assert_eq!(store.description_of(a), "a");
    assert_eq!(store.parents_of(b), &vec![a]);
}

#[test]
fn the_root_cannot_be_described() {
    let mut repo = Repo::new();
    create(&mut repo, "a", &[]);
    let at = repo.reconcile();
    let operations = repo.operation_count();
    assert_eq!(
        repo.describe(at, 0, "origin".to_string()).err(),
        Some(Error::ImmutableCommit { commit: 0 })
    );
    assert_eq!(repo.operation_count(), operations);
    assert_eq!(repo.store().len(), 2);
}

#[test]
fn two_descriptions_side_by_side_make_a_divergent_change() {
    let mut repo = Repo::new();
    let one = create(&mut repo, "one", &[]);
    let base = repo.reconcile();
    let left = repo.describe(base, one, "left".to_string()).unwrap();
    let right = repo.describe(base, one, "right".to_string()).unwrap();
    let at = repo.reconcile();
    let view = repo.view_of(at);
    assert_eq!(view.heads, vec![left.commit, right.commit]);
    let change: String =
        jj_core::text::spell_change(repo.store().change_of(one)).iter().collect();
    match evaluate(repo.store(), view, &change) {
        Err(Error::AmbiguousRevision { commits, .. }) => {
            assert_eq!(commits, vec![left.commit, right.commit])
        }
        other => panic!("unexpected: {:?}", other),
    }
    assert_eq!(
        evaluate(repo.store(), view, &format!("all:{}", change)),
        Ok(vec![left.commit, right.commit])
    );
}

#[test]
fn setting_a_bookmark_replaces_its_targets() {
    let mut repo = Repo::new();
    let a = create(&mut repo, "a", &[]);
    let b = create(&mut repo, "b", &["root()"]);
    let at = repo.reconcile();
    let first = repo.set_bookmark(at, "x", a);
    assert_eq!(targets(repo.view_of(first), "x"), vec![a]);
    let second = repo.set_bookmark(first, "y", a);
    let third = repo.set_bookmark(second, "x", b);
    let view = repo.view_of(third);
    assert_eq!(targets(view, "x"), vec![b]);
    assert_eq!(targets(view, "y"), vec![a]);
    assert_eq!(view.bookmarks.len(), 2);
    assert_eq!(view.heads, vec![a, b]);
    assert_eq!(view.working_copy, b);
    // A bookmark keeps its target visible.
    let hidden = repo.create_commit(0, &request("hidden", &[], &[], &[])).unwrap();
    let op = repo.set_bookmark(third, "z", hidden.commit);
    assert_eq!(repo.view_of(op).heads, vec![a, b, hidden.commit]);
    let copy = with_bookmark(&repo.view_of(op).bookmarks, "x", a, repo.store().len());
    assert_eq!(copy.len(), 3);
    assert_eq!(copy[2].name, "x");
    assert_eq!(copy[2].targets, vec![a]);
}

#[test]
fn views_are_merged_three_ways() {
    let mut store = Store::new();
    let a = store.store_commit(vec![0], 0, "a".to_string(), 1).unwrap();
    let b = store.store_commit(vec![0], 0, "b".to_string(), 2).unwrap();
    let c = store.store_commit(vec![a], 0, "c".to_string(), 3).unwrap();
    let view = |heads: &[usize], bookmarks: Vec<Bookmark>, wc: usize| RepoView {
        heads: heads.to_vec(),
        bookmarks,
        working_copy: wc,
    };
    let base = view(
        &[a, b],
        vec![bookmark("same", &[a]), bookmark("left", &[a]), bookmark("gone", &[a]), bookmark("both", &[a])],
        a,
    );
    let left = view(
        &[b, c],
        vec![
            bookmark("same", &[a]),
            bookmark("left", &[c]),
            bookmark("gone", &[a]),
            bookmark("both", &[b]),
            bookmark("new", &[b]),
        ],
        c,
    );
    let right = view(
        &[a, b],
        vec![
            bookmark("same", &[a]),
            bookmark("left", &[a]),
            bookmark("both", &[c]),
            bookmark("other", &[b]),
        ],
        a,
    );
    let merged = merge_views(&store, &base, &left, &right);
    assert_eq!(targets(&merged, "same"), vec![a]);
    assert_eq!(targets(&merged, "left"), vec![c]);
    assert_eq!(targets(&merged, "gone"), Vec::<usize>::new());
    assert_eq!(targets(&merged, "both"), vec![b, c]);
    assert_eq!(targets(&merged, "new"), vec![b]);
    assert_eq!(targets(&merged, "other"), vec![b]);
    assert_eq!(merged.bookmarks.len(), 5);
    assert_eq!(merged.working_copy, c);
    assert_eq!(merged.heads, vec![b, c]);

    // The other way round the bookmarks are the same.
    let merged = merge_views(&store, &base, &right, &left);
    assert_eq!(targets(&merged, "both"), vec![b, c]);
    assert_eq!(targets(&merged, "left"), vec![c]);
    assert_eq!(targets(&merged, "gone"), Vec::<usize>::new());
    assert_eq!(merged.working_copy, c);
    assert_eq!(merged.heads, vec![b, c]);

    // Where both sides moved the working copy the left one stays.
    let moved = view(&[a, b], vec![], b);
    let merged = merge_views(&store, &base, &left, &moved);
    assert_eq!(merged.working_copy, c);
    let merged = merge_views(&store, &base, &moved, &left);
    assert_eq!(merged.working_copy, b);

    assert_eq!(heads_of(store.dag(), &vec![a, c, 0, c]), vec![c]);
    assert_eq!(heads_of(store.dag(), &vec![]), Vec::<usize>::new());
    assert_eq!(sorted_set(&vec![c, a, c, 0], store.len()), vec![0, a, c]);
}

#[test]
fn plan_lists_parents_children_and_descendants() {
    let mut repo = Repo::new();
    let a = create(&mut repo, "a", &["root()"]);
    let b = create(&mut repo, "b", &[]);
    let c = create(&mut repo, "c", &[]);
    let d = create(&mut repo, "d", &["root()"]);
    let at = repo.reconcile();
    let (store, view) = (repo.store(), repo.view_of(at));
    let plan = plan_insertion(store, view, &vec![], &vec![a], &vec![]).unwrap();
    assert_eq!(plan.parents, vec![a]);
    assert_eq!(plan.children, vec![b]);
    assert_eq!(plan.rebase, vec![b, c]);
    let plan = plan_insertion(store, view, &vec![], &vec![], &vec![c]).unwrap();
    assert_eq!(plan.parents, vec![b]);
    assert_eq!(plan.children, vec![c]);
    assert_eq!(plan.rebase, vec![c]);
    let plan = plan_insertion(store, view, &vec![], &vec![], &vec![c, d]);
    assert_eq!(plan.err(), Some(Error::BackendConstraintViolation));
    let plan = plan_insertion(store, view, &vec![], &vec![], &vec![a, d]).unwrap();
    assert_eq!(plan.parents, vec![0]);
    assert_eq!(plan.rebase, vec![a, b, c, d]);
    let plan = plan_insertion(store, view, &vec![], &vec![], &vec![b, c]);
    assert_eq!(plan.err(), Some(Error::LoopError { commit: b }));
    let plan = plan_insertion(store, view, &vec![], &vec![], &vec![c, c, b]);
    assert_eq!(plan.err(), Some(Error::LoopError { commit: b }));
    let plan = plan_insertion(store, view, &vec![d, a], &vec![], &vec![]).unwrap();
    assert_eq!(plan.parents, vec![d, a]);
    assert!(plan.children.is_empty());
    assert!(plan.rebase.is_empty());
    let plan = plan_insertion(store, view, &vec![], &vec![], &vec![]).unwrap();
    assert_eq!(plan.parents, vec![d]);
    // A child that would keep the root beside the new commit.
    let plan = plan_insertion(store, view, &vec![], &vec![c], &vec![d]);
    assert_eq!(plan.err(), Some(Error::BackendConstraintViolation));
    let plan = plan_insertion(store, view, &vec![], &vec![0], &vec![d]).unwrap();
    assert_eq!(plan.rebase, vec![d]);
    assert_eq!(proper_descendants(store, view, a), vec![b, c]);
    assert_eq!(proper_descendants(store, view, 0), vec![a, b, c, d]);
    assert_eq!(proper_descendants(store, view, d), Vec::<usize>::new());

    let (plan, mode) = plan_new_commit(store, view, &request("", &[], &["description(a)"], &[])).unwrap();
    assert_eq!(plan.rebase, vec![b, c]);
    assert_eq!(mode, EditMode::Edit);
    let mut quiet = request("", &[], &[], &[]);
    quiet.no_edit = true;
    assert_eq!(plan_new_commit(store, view, &quiet).unwrap().1, EditMode::NoEdit);

    let (ids, flags) = evaluate_all(
        store,
        view,
        &vec!["all:visible_heads()".to_string(), "@".to_string(), "root()".to_string()],
    )
    .unwrap();
    assert_eq!(ids, vec![c, d, d, 0]);
    assert_eq!(flags, vec![true, true, false, false]);
    assert_eq!(
        evaluate_all(store, view, &vec!["@".to_string(), "missing".to_string(), "gone".to_string()]),
        Err(Error::UnknownRevision { symbol: "missing".to_string() })
    );
    // A single letter of a change id is enough where no other change shares it.
    assert_eq!(evaluate(store, view, "x"), Ok(vec![b]));
    assert_eq!(evaluate(store, view, "y"), Ok(vec![a]));

    let table: Vec<usize> = (0..store.len()).map(|i| if i == c { d } else { i }).collect();
    let moved = carried(store, view, &table, a, EditMode::NoEdit);
    assert_eq!(moved.heads, vec![a, d]);
    assert_eq!(moved.working_copy, d);
    let moved = carried(store, view, &table, a, EditMode::Edit);
    assert_eq!(moved.working_copy, a);
}

#[test]
fn the_report_names_the_new_commit_and_its_parents() {
    let mut repo = Repo::new();
    let a = create(&mut repo, "A", &["root()"]);
    let at = repo.reconcile();
    repo.set_bookmark(at, "A", a);
    create(&mut repo, "B", &[]);
    let at = repo.reconcile();
    let out = repo.create_commit(at, &request("G", &[], &["A"], &[])).unwrap();
    let lines = summarize(repo.store(), out.commit, out.rebased(), out.mode);
    assert_eq!(
        lines,
        vec![
            "Rebased 1 descendant commits",
            "Working copy now at: wzzzzzzz 30000000 (empty) G",
            "Parent commit      : yzzzzzzz 10000000 (empty) A",
        ]
    );
    let lines = summarize(repo.store(), out.commit, 0, EditMode::NoEdit);
    assert_eq!(lines, vec!["Created new commit wzzzzzzz 30000000 (empty) G"]);
    let lines = summarize(repo.store(), 0, 12, EditMode::Edit);
    assert_eq!(
        lines,
        vec![
            "Rebased 12 descendant commits",
            "Working copy now at: zzzzzzzz 00000000 (empty) (no description set)",
        ]
    );
    let mut store = Store::new();
    let full = store.store_commit(vec![0], 5, String::new(), 17).unwrap();
    let lines = summarize(&store, full, 0, EditMode::Edit);
    assert_eq!(
        lines,
        vec![
            "Working copy now at: yyzzzzzz 10000000 (no description set)",
            "Parent commit      : zzzzzzzz 00000000 (empty) (no description set)",
        ]
    );
}

#[test]
fn a_prefix_that_several_ids_share_is_ambiguous() {
    let mut repo = Repo::new();
    for i in 1..=16 {
        assert_eq!(create(&mut repo, "", &[]), i);
    }
    let at = repo.reconcile();
    let (store, view) = (repo.store(), repo.view_of(at));
    // The commits 0 and 16 are spelled 00... and 01...
    match resolve(store, view, "0") {
        ResolvedSet::Ambiguous { commits, reason } => {
            assert_eq!(commits, vec![0, 16]);
            assert_eq!(reason, AmbiguityReason::AmbiguousPrefix);
            assert!(!reason.is_conflict());
            assert_eq!(reason.remedy(), Remedy::LongerPrefix);
        }
        _ => panic!("two commits begin with 0"),
    }
    assert_eq!(evaluate(store, view, "00"), Ok(vec![0]));
    assert_eq!(evaluate(store, view, "01"), Ok(vec![16]));
    assert_eq!(evaluate(store, view, "all:0"), Ok(vec![0, 16]));
    assert_eq!(
        evaluate(store, view, "0"),
        Err(Error::AmbiguousRevision {
            symbol: "0".to_string(),
            commits: vec![0, 16],
            reason: AmbiguityReason::AmbiguousPrefix,
        })
    );
    assert_eq!(
        explain(store, &evaluate(store, view, "0").err().unwrap()),
        vec![
            "The revset `0` resolved to these revisions:\n  \
             zzzzzzzz 00000000 (empty) (no description set)\n  \
             zyzzzzzz 01000000 (empty) (no description set)\n",
            "Use more characters of the id, or prefix the revset with `all:`.\n",
        ]
    );
    // The changes 0 and 16 are spelled zz... and zy...
    match resolve(store, view, "z") {
        ResolvedSet::Ambiguous { commits, reason } => {
            assert_eq!(commits, vec![0, 16]);
            assert_eq!(reason, AmbiguityReason::AmbiguousPrefix);
        }
        _ => panic!("two changes begin with z"),
    }
    assert_eq!(evaluate(store, view, "zy"), Ok(vec![16]));
    // Too long to be the beginning of an id.
    assert_eq!(
        evaluate(store, view, "00000000000000000"),
        Err(Error::UnknownRevision { symbol: "00000000000000000".to_string() })
    );
}

#[test]
fn the_rebase_count_is_the_number_of_commits_that_were_rewritten() {
    let mut repo = Repo::new();
    let a = create(&mut repo, "a", &["root()"]);
    let b = create(&mut repo, "b", &[]);
    let c = create(&mut repo, "c", &[]);
    let d = create(&mut repo, "d", &["description(b)"]);
    let e = create(&mut repo, "e", &["root()"]);
    let at = repo.reconcile();
    let out = repo.create_commit(at, &request("g", &[], &["description(a)"], &[])).unwrap();
    // Every visible descendant of `a` and nothing else.
    assert_eq!(out.plan.rebase, vec![b, c, d]);
    assert_eq!(out.rebased(), 3);
    let store = repo.store();
    let mut rewritten = Vec::new();
    for old in 0..out.table.len() {
        if out.table[old] != old {
            rewritten.push(old);
            assert_eq!(store.change_of(out.table[old]), store.change_of(old));
            assert_eq!(store.description_of(out.table[old]), store.description_of(old));
            assert_eq!(store.tree_of(out.table[old]), store.tree_of(old));
            // What was rewritten descends from the new commit now.
            assert!(store.is_ancestor(out.commit, out.table[old]));
            assert!(store.is_ancestor(a, out.table[old]));
        }
    }
    assert_eq!(rewritten, vec![b, c, d]);
    assert_eq!(out.table[a], a);
    assert_eq!(out.table[e], e);
    assert_eq!(store.parents_of(out.commit), &vec![a]);
    assert_eq!(store.parents_of(out.table[b]), &vec![out.commit]);
    assert_eq!(store.parents_of(out.table[c]), &vec![out.table[b]]);
    assert_eq!(store.parents_of(out.table[d]), &vec![out.table[b]]);
    assert!(!store.is_ancestor(out.commit, e));
    let view = repo.view_of(out.operation);
    assert_eq!(view.heads, vec![e, out.table[c], out.table[d]]);
    assert_eq!(view.working_copy, out.commit);
}
