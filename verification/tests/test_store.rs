use jj_core::dag::Dag;
use jj_core::error::Error;
use jj_core::store::Store;

#[test]
fn new_store_holds_the_root_alone() {
    let store = Store::new();
    assert_eq!(store.len(), 1);
    assert_eq!(store.root(), 0);
    assert!(store.is_root(0));
    assert!(!store.is_root(1));
    assert!(store.contains(0));
    assert!(!store.contains(1));
    assert!(store.parents_of(0).is_empty());
    assert_eq!(store.description_of(0), "");
    assert_eq!(store.change_of(0), 0);
    assert_eq!(store.tree_of(0), 0);
    assert_eq!(store.fresh_change(), 1);
    assert!(!store.permits_root_as_merge_parent());
}

#[test]
fn storing_the_same_commit_twice_gives_the_same_id() {
    let mut store = Store::new();
    let first = store.store_commit(vec![0], 7, "a".to_string(), 3).unwrap();
    assert_eq!(first, 1);
    assert_eq!(store.len(), 2);
    let second = store.store_commit(vec![0], 7, "a".to_string(), 3).unwrap();
    assert_eq!(second, first);
    assert_eq!(store.len(), 2);
    // Any part that differs makes another commit.
    assert_eq!(store.store_commit(vec![0], 8, "a".to_string(), 3), Ok(2));
    assert_eq!(store.store_commit(vec![0], 7, "b".to_string(), 3), Ok(3));
    assert_eq!(store.store_commit(vec![0], 7, "a".to_string(), 4), Ok(4));
    assert_eq!(store.store_commit(vec![1], 7, "a".to_string(), 3), Ok(5));
    assert_eq!(store.store_commit(vec![1, 2], 7, "a".to_string(), 3), Ok(6));
    assert_eq!(store.store_commit(vec![2, 1], 7, "a".to_string(), 3), Ok(7));
    assert_eq!(store.len(), 8);
    assert_eq!(store.store_commit(vec![1, 2], 7, "a".to_string(), 3), Ok(6));
    assert_eq!(store.len(), 8);
    assert_eq!(store.fresh_change(), 5);
    assert_eq!(store.parents_of(7), &vec![2, 1]);
    assert_eq!(store.tree_of(2), 8);
    assert_eq!(store.description_of(3), "b");
    assert_eq!(store.change_of(4), 4);
}

#[test]
fn the_backend_refuses_a_second_root_and_a_merge_with_the_root() {
    let mut store = Store::new();
    let a = store.store_commit(vec![0], 0, String::new(), 1).unwrap();
    assert_eq!(
        store.store_commit(vec![], 0, String::new(), 2),
        Err(Error::BackendConstraintViolation)
    );
    assert_eq!(
        store.store_commit(vec![a, 0], 0, String::new(), 2),
        Err(Error::BackendConstraintViolation)
    );
    assert_eq!(
        store.store_commit(vec![0, 0], 0, String::new(), 2),
        Err(Error::BackendConstraintViolation)
    );
    assert_eq!(store.len(), 2);
    assert_eq!(store.store_commit(vec![a, a], 0, String::new(), 2), Ok(2));
}

/// root <- 1 <- 2 <- 4, root <- 3, and 5 on top of 2 and 3.
fn small_store() -> Store {
    let mut store = Store::new();
    store.store_commit(vec![0], 0, "1".to_string(), 1).unwrap();
    store.store_commit(vec![1], 0, "2".to_string(), 2).unwrap();
    store.store_commit(vec![0], 0, "3".to_string(), 3).unwrap();
    store.store_commit(vec![2], 0, "4".to_string(), 4).unwrap();
    store.store_commit(vec![2, 3], 0, "5".to_string(), 5).unwrap();
    store
}

#[test]
fn ancestry_is_a_partial_order() {
    let store = small_store();
    let n = store.len();
    for a in 0..n {
        assert!(store.is_ancestor(a, a));
        for b in 0..n {
            if store.is_ancestor(a, b) && store.is_ancestor(b, a) {
                assert_eq!(a, b);
            }
            for c in 0..n {
                if store.is_ancestor(a, b) && store.is_ancestor(b, c) {
                    assert!(store.is_ancestor(a, c));
                }
            }
        }
    }
    assert!(store.is_ancestor(0, 5));
    assert!(store.is_ancestor(1, 4));
    assert!(store.is_ancestor(1, 5));
    assert!(store.is_ancestor(3, 5));
    assert!(!store.is_ancestor(3, 4));
    assert!(!store.is_ancestor(4, 5));
    assert!(!store.is_ancestor(5, 2));
    assert!(!store.is_ancestor(1, 3));
    // An id that names no commit is its own ancestor and nothing else.
    assert!(store.is_ancestor(9, 9));
    assert!(!store.is_ancestor(0, 9));
}

#[test]
fn children_are_derived_from_parents() {
    let store = small_store();
    assert_eq!(store.children_of(0), vec![1, 3]);
    assert_eq!(store.children_of(1), vec![2]);
    assert_eq!(store.children_of(2), vec![4, 5]);
    assert_eq!(store.children_of(3), vec![5]);
    assert_eq!(store.children_of(4), Vec::<usize>::new());
    assert_eq!(store.children_of(5), Vec::<usize>::new());
}

#[test]
fn graph_marks_ancestors_and_descendants() {
    let mut dag = Dag::new();
    dag.push(vec![]);
    dag.push(vec![0]);
    dag.push(vec![1]);
    dag.push(vec![0]);
    dag.push(vec![2]);
    dag.push(vec![2, 3]);
    assert_eq!(dag.len(), 6);
    assert_eq!(dag.parents(5), &vec![2, 3]);
    assert_eq!(dag.ancestors_of(&vec![4]), vec![true, true, true, false, true, false]);
    assert_eq!(dag.ancestors_of(&vec![3, 1]), vec![true, true, false, true, false, false]);
    assert_eq!(dag.ancestors_of(&vec![]), vec![false; 6]);
    let all = vec![true; 6];
    assert_eq!(dag.descendants_of(&vec![2], &all), vec![false, false, true, false, true, true]);
    assert_eq!(dag.descendants_of(&vec![3], &all), vec![false, false, false, true, false, true]);
    // Only what is within the given set counts.
    let without_five = vec![true, true, true, true, true, false];
    assert_eq!(
        dag.descendants_of(&vec![2], &without_five),
        vec![false, false, true, false, true, false]
    );
    assert_eq!(dag.children_of(&vec![2, 0], &all), vec![1, 3, 4, 5]);
    assert_eq!(dag.children_of(&vec![2, 0], &without_five), vec![1, 3, 4]);
    assert!(dag.is_ancestor(0, 5));
    assert!(!dag.is_ancestor(4, 5));
}
