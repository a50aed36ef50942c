use jj_core::error::{AmbiguityReason, Error, Remedy, UsageProblem};
use jj_core::plan::EditMode;
use jj_core::repo::{OpId, Outcome, Repo};
use jj_core::request::Request;
use jj_core::revset::{resolve, ResolvedSet};
use jj_core::store::CommitId;
use jj_core::summary::explain;
use jj_core::text::{spell_change, spell_commit};

fn strings(texts: &[&str]) -> Vec<String> {
    texts.iter().map(|t| t.to_string()).collect()
}

fn request(description: &str, parents: &[&str], after: &[&str], before: &[&str]) -> Request {
    Request {
        parents: strings(parents),
        insert_after: strings(after),
        insert_before: strings(before),
        edit: false,
        no_edit: false,
        description: description.to_string(),
    }
}

/// Runs `new -m description parents...` on the latest operation.
fn new_commit(repo: &mut Repo, description: &str, parents: &[&str]) -> Result<Outcome, Error> {
    let at = repo.reconcile();
    repo.create_commit(at, &request(description, parents, &[], &[]))
}

fn insert(repo: &mut Repo, description: &str, after: &[&str], before: &[&str]) -> Result<Outcome, Error> {
    let at = repo.reconcile();
    repo.create_commit(at, &request(description, &[], after, before))
}

fn bookmark(repo: &mut Repo, name: &str, target: CommitId) -> OpId {
    let at = repo.reconcile();
    repo.set_bookmark(at, name, target)
}

/// The description of a commit, with `root` for the root commit.
fn label(repo: &Repo, id: CommitId) -> String {
    if id == 0 {
        "root".to_string()
    } else {
        repo.store().description_of(id).clone()
    }
}

/// Every visible commit of the latest operation with its parents, by
/// description, sorted by description.
fn log(repo: &mut Repo) -> Vec<(String, Vec<String>)> {
    let at = repo.reconcile();
    let view = repo.view_of(at);
    let store = repo.store();
    let mut seen = vec![false; store.len()];
    let mut pending: Vec<CommitId> = view.heads.clone();
    while let Some(c) = pending.pop() {
        if !seen[c] {
            seen[c] = true;
            pending.extend(store.parents_of(c).iter().copied());
        }
    }
    let mut lines: Vec<(String, Vec<String>)> = Vec::new();
    for c in 0..store.len() {
        if seen[c] {
            let parents = store.parents_of(c).iter().map(|p| label(repo, *p)).collect();
            lines.push((label(repo, c), parents));
        }
    }
    lines.sort();
    lines
}

fn line(name: &str, parents: &[&str]) -> (String, Vec<String>) {
    (name.to_string(), strings(parents))
}

fn working_copy(repo: &mut Repo) -> String {
    let at = repo.reconcile();
    let id = repo.view_of(at).working_copy;
    label(repo, id)
}

/// root <- A <- B <- C, root <- D, root <- E, and F on top of D and E, each
/// with a bookmark of its name. F is checked out.
fn setup_before_insertion(repo: &mut Repo) {
    let a = new_commit(repo, "A", &["root()"]).unwrap().commit;
    bookmark(repo, "A", a);
    let b = new_commit(repo, "B", &[]).unwrap().commit;
    bookmark(repo, "B", b);
    let c = new_commit(repo, "C", &[]).unwrap().commit;
    bookmark(repo, "C", c);
    let d = new_commit(repo, "D", &["root()"]).unwrap().commit;
    bookmark(repo, "D", d);
    let e = new_commit(repo, "E", &["root()"]).unwrap().commit;
    bookmark(repo, "E", e);
    let f = new_commit(repo, "F", &["D", "E"]).unwrap().commit;
    bookmark(repo, "F", f);
}

fn initial_log() -> Vec<(String, Vec<String>)> {
    vec![
        line("A", &["root"]),
        line("B", &["A"]),
        line("C", &["B"]),
        line("D", &["root"]),
        line("E", &["root"]),
        line("F", &["D", "E"]),
        line("root", &[]),
    ]
}

#[test]
fn test_new() {
    let mut repo = Repo::new();
    new_commit(&mut repo, "add a file", &[]).unwrap();
    new_commit(&mut repo, "a new commit", &[]).unwrap();
    assert_eq!(
        log(&mut repo),
        vec![
            line("a new commit", &["add a file"]),
            line("add a file", &["root"]),
            line("root", &[]),
        ]
    );
    assert_eq!(working_copy(&mut repo), "a new commit");

    // Start a new change off of a specific commit (the root commit in this case).
    new_commit(&mut repo, "off of root", &["root()"]).unwrap();
    assert_eq!(
        log(&mut repo),
        vec![
            line("a new commit", &["add a file"]),
            line("add a file", &["root"]),
            line("off of root", &["root"]),
            line("root", &[]),
        ]
    );
    assert_eq!(working_copy(&mut repo), "off of root");

    // --edit is a no-op
    let at = repo.reconcile();
    let mut edit = request("yet another commit", &[], &[], &[]);
    edit.edit = true;
    let out = repo.create_commit(at, &edit).unwrap();
    assert_eq!(out.mode, EditMode::Edit);
    assert_eq!(
        log(&mut repo),
        vec![
            line("a new commit", &["add a file"]),
            line("add a file", &["root"]),
            line("off of root", &["root"]),
            line("root", &[]),
            line("yet another commit", &["off of root"]),
        ]
    );
    assert_eq!(working_copy(&mut repo), "yet another commit");

    // --edit cannot be used with --no-edit
    let at = repo.reconcile();
    let mut both = request("", &["B"], &[], &[]);
    both.edit = true;
    both.no_edit = true;
    let before = log(&mut repo);
    assert_eq!(
        repo.create_commit(at, &both).err(),
        Some(Error::UsageError { problem: UsageProblem::EditWithNoEdit })
    );
    assert_eq!(log(&mut repo), before);
}

#[test]
fn test_new_merge() {
    let mut repo = Repo::new();
    let file1 = new_commit(&mut repo, "add file1", &[]).unwrap().commit;
    bookmark(&mut repo, "main", file1);
    new_commit(&mut repo, "add file2", &["root()"]).unwrap();
    let before_merge = repo.reconcile();

    // Create a merge commit
    let merge = new_commit(&mut repo, "", &["main", "@"]).unwrap();
    assert_eq!(merge.rebased(), 0);
    assert_eq!(
        log(&mut repo),
        vec![
            line("", &["add file1", "add file2"]),
            line("add file1", &["root"]),
            line("add file2", &["root"]),
            line("root", &[]),
        ]
    );
    assert_eq!(working_copy(&mut repo), "");

    // Same test with `--no-edit`, from the state before the merge
    let mut quiet = request("", &["main", "@"], &[], &[]);
    quiet.no_edit = true;
    let out = repo.create_commit(before_merge, &quiet).unwrap();
    assert_eq!(out.mode, EditMode::NoEdit);
    let view = repo.view_of(out.operation);
    assert_eq!(label(&repo, view.working_copy), "add file2");
    assert_eq!(repo.store().parents_of(out.commit).len(), 2);
    // The same merge was stored a second time under a new change.
    assert_ne!(out.commit, merge.commit);

    // merge with non-unique revisions
    let at = merge.operation;
    assert_eq!(
        repo.create_commit(at, &request("", &["@", "3a44e"], &[], &[])).err(),
        Some(Error::UnknownRevision { symbol: "3a44e".to_string() })
    );
    // if prefixed with all:, duplicates are allowed
    let out = repo.create_commit(at, &request("", &["@", "all:visible_heads()"], &[], &[])).unwrap();
    assert_eq!(repo.store().parents_of(out.commit), &vec![merge.commit, merge.commit]);
    // without it they are not
    assert_eq!(
        repo.create_commit(at, &request("", &["@", "@"], &[], &[])).err(),
        Some(Error::UsageError { problem: UsageProblem::RepeatedParent })
    );

    // merge with root
    assert_eq!(
        repo.create_commit(at, &request("", &["@", "root()"], &[], &[])).err(),
        Some(Error::BackendConstraintViolation)
    );
}

#[test]
fn test_new_insert_after() {
    let mut repo = Repo::new();
    setup_before_insertion(&mut repo);
    assert_eq!(log(&mut repo), initial_log());
    assert_eq!(working_copy(&mut repo), "F");

    // --insert-after can be repeated
    let out = insert(&mut repo, "G", &["B", "D"], &[]).unwrap();
    assert_eq!(out.rebased(), 2);
    assert_eq!(
        log(&mut repo),
        vec![
            line("A", &["root"]),
            line("B", &["A"]),
            line("C", &["G"]),
            line("D", &["root"]),
            line("E", &["root"]),
            line("F", &["E", "G"]),
            line("G", &["B", "D"]),
            line("root", &[]),
        ]
    );
    assert_eq!(working_copy(&mut repo), "G");

    let out = insert(&mut repo, "H", &["D"], &[]).unwrap();
    assert_eq!(out.rebased(), 3);
    assert_eq!(
        log(&mut repo),
        vec![
            line("A", &["root"]),
            line("B", &["A"]),
            line("C", &["G"]),
            line("D", &["root"]),
            line("E", &["root"]),
            line("F", &["E", "G"]),
            line("G", &["B", "H"]),
            line("H", &["D"]),
            line("root", &[]),
        ]
    );
    assert_eq!(working_copy(&mut repo), "H");

    // --after cannot be used with revisions
    let at = repo.reconcile();
    assert_eq!(
        repo.create_commit(at, &request("", &["D"], &["B"], &[])).err(),
        Some(Error::UsageError { problem: UsageProblem::ParentsWithInsertion })
    );
}

#[test]
fn test_new_insert_after_children() {
    let mut repo = Repo::new();
    setup_before_insertion(&mut repo);
    assert_eq!(log(&mut repo), initial_log());

    // Attempting to insert G after A and C errors out due to the cycle created
    // as A is an ancestor of C.
    let c = repo.store().len() - 4;
    assert_eq!(label(&repo, c), "C");
    assert_eq!(
        insert(&mut repo, "G", &["A", "C"], &[]).err(),
        Some(Error::LoopError { commit: c })
    );
    assert_eq!(log(&mut repo), initial_log());
}

#[test]
fn test_new_insert_before() {
    let mut repo = Repo::new();
    setup_before_insertion(&mut repo);
    assert_eq!(log(&mut repo), initial_log());

    let out = insert(&mut repo, "G", &[], &["C", "F"]).unwrap();
    assert_eq!(out.rebased(), 2);
    assert_eq!(
        log(&mut repo),
        vec![
            line("A", &["root"]),
            line("B", &["A"]),
            line("C", &["G"]),
            line("D", &["root"]),
            line("E", &["root"]),
            line("F", &["G"]),
            line("G", &["B", "D", "E"]),
            line("root", &[]),
        ]
    );
    assert_eq!(working_copy(&mut repo), "G");

    // --before cannot be used with revisions
    let at = repo.reconcile();
    assert_eq!(
        repo.create_commit(at, &request("", &["D"], &[], &["B"])).err(),
        Some(Error::UsageError { problem: UsageProblem::ParentsWithInsertion })
    );
}

#[test]
fn test_new_insert_before_root_successors() {
    let mut repo = Repo::new();
    setup_before_insertion(&mut repo);
    assert_eq!(log(&mut repo), initial_log());

    let out = insert(&mut repo, "G", &[], &["A", "D"]).unwrap();
    assert_eq!(out.rebased(), 5);
    assert_eq!(
        log(&mut repo),
        vec![
            line("A", &["G"]),
            line("B", &["A"]),
            line("C", &["B"]),
            line("D", &["G"]),
            line("E", &["root"]),
            line("F", &["D", "E"]),
            line("G", &["root"]),
            line("root", &[]),
        ]
    );
    assert_eq!(working_copy(&mut repo), "G");
}

#[test]
fn test_new_insert_before_no_loop() {
    let mut repo = Repo::new();
    setup_before_insertion(&mut repo);
    assert_eq!(log(&mut repo), initial_log());
    let b = repo.store().len() - 5;
    assert_eq!(label(&repo, b), "B");

    assert_eq!(
        insert(&mut repo, "G", &[], &["A", "C"]).err(),
        Some(Error::LoopError { commit: b })
    );
}

#[test]
fn test_new_insert_before_no_root_merge() {
    let mut repo = Repo::new();
    setup_before_insertion(&mut repo);
    assert_eq!(log(&mut repo), initial_log());

    assert_eq!(
        insert(&mut repo, "G", &[], &["B", "D"]).err(),
        Some(Error::BackendConstraintViolation)
    );
}

#[test]
fn test_new_insert_before_root() {
    let mut repo = Repo::new();
    setup_before_insertion(&mut repo);
    assert_eq!(log(&mut repo), initial_log());

    // The root cannot gain a parent.
    assert_eq!(
        insert(&mut repo, "G", &[], &["root()"]).err(),
        Some(Error::BackendConstraintViolation)
    );
    assert_eq!(log(&mut repo), initial_log());
}

#[test]
fn test_new_insert_after_before() {
    let mut repo = Repo::new();
    setup_before_insertion(&mut repo);
    assert_eq!(log(&mut repo), initial_log());

    let out = insert(&mut repo, "G", &["C"], &["F"]).unwrap();
    assert_eq!(out.rebased(), 1);
    assert_eq!(
        log(&mut repo),
        vec![
            line("A", &["root"]),
            line("B", &["A"]),
            line("C", &["B"]),
            line("D", &["root"]),
            line("E", &["root"]),
            line("F", &["D", "E", "G"]),
            line("G", &["C"]),
            line("root", &[]),
        ]
    );
    assert_eq!(working_copy(&mut repo), "G");

    let out = insert(&mut repo, "H", &["D"], &["B"]).unwrap();
    assert_eq!(out.rebased(), 4);
    assert_eq!(
        log(&mut repo),
        vec![
            line("A", &["root"]),
            line("B", &["A", "H"]),
            line("C", &["B"]),
            line("D", &["root"]),
            line("E", &["root"]),
            line("F", &["D", "E", "G"]),
            line("G", &["C"]),
            line("H", &["D"]),
            line("root", &[]),
        ]
    );
    assert_eq!(working_copy(&mut repo), "H");
}

#[test]
fn test_new_insert_after_before_no_loop() {
    let mut repo = Repo::new();
    setup_before_insertion(&mut repo);
    assert_eq!(log(&mut repo), initial_log());
    let c = repo.store().len() - 4;
    assert_eq!(label(&repo, c), "C");

    assert_eq!(
        insert(&mut repo, "G", &["C"], &["A"]).err(),
        Some(Error::LoopError { commit: c })
    );
}

#[test]
fn test_new_conflicting_bookmarks() {
    let mut repo = Repo::new();
    let one = new_commit(&mut repo, "one", &[]).unwrap();
    let two = new_commit(&mut repo, "two", &["root()"]).unwrap();
    // Two operations, made side by side, each point `foo` somewhere else.
    let base = two.operation;
    let left = repo.set_bookmark(base, "foo", two.commit);
    let right = repo.set_bookmark(base, "foo", one.commit);
    assert!(repo.divergent(left, right));

    // Trigger resolution of divergent operations
    let at = repo.reconcile();
    assert_eq!(repo.head_operations(), &vec![at]);

    match repo.create_commit(at, &request("", &["foo"], &[], &[])) {
        Err(Error::AmbiguousRevision { symbol, commits, reason }) => {
            assert_eq!(symbol, "foo");
            assert_eq!(commits, vec![one.commit, two.commit]);
            assert_eq!(reason, AmbiguityReason::ConflictedBookmark);
            assert!(reason.is_conflict());
            assert_eq!(reason.remedy(), Remedy::BookmarkSet);
        }
        other => panic!("unexpected: {:?}", other.map(|out| out.commit)),
    }
    let refused = repo.create_commit(at, &request("", &["foo"], &[], &[])).err().unwrap();
    assert_eq!(
        explain(repo.store(), &refused),
        vec![
            "Bookmark foo resolved to multiple revisions because it's conflicted.\n\
             It resolved to these revisions:\n  \
             yzzzzzzz 10000000 foo?? | (empty) one\n  \
             xzzzzzzz 20000000 foo?? | (empty) two\n",
            "Set which revision the bookmark points to with `jj bookmark set foo -r \
             <REVISION>`.\n",
        ]
    );

    // Setting the bookmark again settles it.
    let settled = repo.set_bookmark(at, "foo", one.commit);
    let out = repo.create_commit(settled, &request("", &["foo"], &[], &[])).unwrap();
    assert_eq!(repo.store().parents_of(out.commit), &vec![one.commit]);
}

#[test]
fn test_new_conflicting_change_ids() {
    let mut repo = Repo::new();
    let one = new_commit(&mut repo, "one", &[]).unwrap();
    let base = one.operation;
    // Two operations, made side by side, each rewrite `one`.
    let left = repo.create_commit(base, &request("left", &[], &[], &["@"])).unwrap();
    let right = repo.create_commit(base, &request("right", &[], &[], &["@"])).unwrap();
    let first = left.table[one.commit];
    let second = right.table[one.commit];
    assert_ne!(first, second);
    assert_eq!(repo.store().change_of(first), repo.store().change_of(second));

    // Trigger resolution of divergent operations
    let at = repo.reconcile();

    let change: String = spell_change(repo.store().change_of(first)).iter().collect();
    match repo.create_commit(at, &request("", &[&change], &[], &[])) {
        Err(Error::AmbiguousRevision { symbol, commits, reason }) => {
            assert_eq!(symbol, change);
            assert_eq!(commits, vec![first, second]);
            assert_eq!(reason, AmbiguityReason::DivergentChange);
            assert!(reason.is_conflict());
            assert_eq!(reason.remedy(), Remedy::Abandon);
        }
        other => panic!("unexpected: {:?}", other.map(|out| out.commit)),
    }
    let refused = repo.create_commit(at, &request("", &[&change], &[], &[])).err().unwrap();
    let short = |text: Vec<char>| text.into_iter().take(8).collect::<String>();
    let listed = |commit: CommitId| {
        format!(
            "  {}?? {} (empty) one\n",
            short(spell_change(repo.store().change_of(commit))),
            short(spell_commit(commit))
        )
    };
    assert_eq!(
        explain(repo.store(), &refused),
        vec![
            format!(
                "The revset `{change}` resolved to these revisions:\n{}{}",
                listed(first),
                listed(second)
            ),
            "Some of these commits have the same change id. Abandon one of them with `jj \
             abandon -r <REVISION>`.\n"
                .to_string(),
        ]
    );
    // With `all:` both become parents.
    let all = format!("all:{}", change);
    let out = repo.create_commit(at, &request("", &[&all], &[], &[])).unwrap();
    assert_eq!(repo.store().parents_of(out.commit), &vec![first, second]);
}

#[test]
fn test_new_error_revision_does_not_exist() {
    let mut repo = Repo::new();
    new_commit(&mut repo, "one", &[]).unwrap();
    new_commit(&mut repo, "two", &[]).unwrap();

    assert_eq!(
        new_commit(&mut repo, "", &["this"]).err(),
        Some(Error::UnknownRevision { symbol: "this".to_string() })
    );
}

#[test]
fn resolve_finds_ids_bookmarks_and_functions() {
    let mut repo = Repo::new();
    setup_before_insertion(&mut repo);
    let at = repo.reconcile();
    let store = repo.store();
    let view = repo.view_of(at);
    let id_of = |text: &str| match resolve(store, view, text) {
        ResolvedSet::Unique(c) => c,
        _ => panic!("not unique: {}", text),
    };
    let a = id_of("A");
    assert_eq!(label(&repo, a), "A");
    assert_eq!(id_of("root()"), 0);
    assert_eq!(label(&repo, id_of("@")), "F");
    match resolve(store, view, "visible_heads()") {
        ResolvedSet::Several(heads) => {
            let names: Vec<String> = heads.iter().map(|h| label(&repo, *h)).collect();
            assert_eq!(names, vec!["C", "F"]);
        }
        _ => panic!("two heads expected"),
    }
    assert_eq!(label(&repo, id_of("description(E)")), "E");
    // The whole id, and any beginning of it that no other id shares.
    let whole: String = spell_commit(a).iter().collect();
    assert_eq!(id_of(&whole), a);
    assert_eq!(id_of(&whole[..1]), a);
    let change: String = spell_change(store.change_of(a)).iter().collect();
    assert_eq!(id_of(&change), a);
    // All ids end in zeros.
    match resolve(store, view, "0") {
        ResolvedSet::Unique(c) => assert_eq!(c, 0),
        _ => panic!("the root alone begins with 0"),
    }
    assert!(matches!(resolve(store, view, "nothing"), ResolvedSet::Empty));
    assert!(matches!(resolve(store, view, ""), ResolvedSet::Empty));
}

#[test]
fn several_heads_are_no_ambiguity() {
    let mut repo = Repo::new();
    let a = new_commit(&mut repo, "a", &["root()"]).unwrap().commit;
    let b = new_commit(&mut repo, "b", &["root()"]).unwrap().commit;
    let at = repo.reconcile();
    match resolve(repo.store(), repo.view_of(at), "visible_heads()") {
        ResolvedSet::Several(commits) => assert_eq!(commits, vec![a, b]),
        _ => panic!("two heads expected"),
    }
    let out = new_commit(&mut repo, "merge", &["visible_heads()"]).unwrap();
    assert_eq!(repo.store().parents_of(out.commit), &vec![a, b]);
}

#[test]
fn new_on_root_twice_is_refused_and_once_is_not() {
    let mut repo = Repo::new();
    assert_eq!(
        new_commit(&mut repo, "", &["root()", "root()"]).err(),
        Some(Error::BackendConstraintViolation)
    );
    assert_eq!(repo.store().len(), 1);
    let out = new_commit(&mut repo, "", &["root()"]).unwrap();
    assert_eq!(repo.store().parents_of(out.commit), &vec![0]);
}

#[test]
fn options_are_looked_at_before_any_revset_is_resolved() {
    let mut repo = Repo::new();
    let at = repo.reconcile();
    assert_eq!(
        repo.create_commit(at, &request("", &["nowhere"], &["nothing"], &[])).err(),
        Some(Error::UsageError { problem: UsageProblem::ParentsWithInsertion })
    );
    assert_eq!(
        repo.create_commit(at, &request("", &["nowhere"], &[], &["nothing"])).err(),
        Some(Error::UsageError { problem: UsageProblem::ParentsWithInsertion })
    );
    let mut both = request("", &["nowhere"], &["nothing"], &[]);
    both.edit = true;
    both.no_edit = true;
    assert_eq!(
        repo.create_commit(at, &both).err(),
        Some(Error::UsageError { problem: UsageProblem::EditWithNoEdit })
    );
    let unknown = repo.create_commit(at, &request("", &["nowhere"], &[], &[])).err().unwrap();
    assert_eq!(unknown, Error::UnknownRevision { symbol: "nowhere".to_string() });
    // Nothing is said beside a refusal that is no ambiguity.
    assert_eq!(explain(repo.store(), &unknown), Vec::<String>::new());
}
