use split_merge::{DisjointSets, SplitMergeError};

fn sorted(mut v: Vec<usize>) -> Vec<usize> {
    v.sort();
    v.dedup();
    v
}

fn neighbors_of(ds: &DisjointSets, id: usize) -> Vec<usize> {
    sorted(ds.get_set(id).expect("present").neighbors.clone())
}

fn chain() -> DisjointSets {
    let mut ds = DisjointSets::new();
    for i in 1..=4 {
        ds.add_item(i).unwrap();
    }
    ds.set_as_neighbors(1, 2).unwrap();
    ds.set_as_neighbors(2, 3).unwrap();
    ds.set_as_neighbors(3, 4).unwrap();
    ds
}

#[test]
fn unite_then_clear_data() {
    let mut ds = chain();
    ds.create_new(5, [2, 3]).unwrap();
    ds.clear_data();
    assert_eq!(sorted(ds.get_root_items()), vec![1, 4, 5]);
    assert_eq!(neighbors_of(&ds, 5), vec![1, 4]);
    assert_eq!(neighbors_of(&ds, 1), vec![5]);
    assert_eq!(neighbors_of(&ds, 4), vec![5]);
}

#[test]
fn every_id_resolves_to_a_root() {
    let mut ds = chain();
    ds.create_new(5, [2, 3]).unwrap();
    ds.create_new(6, [1, 5]).unwrap();
    for id in 1..=6 {
        let r = ds.get_father_of(id).unwrap();
        assert!(ds.is_root_item(r));
    }
    assert_eq!(ds.get_father_of(2), Some(6));
    assert_eq!(ds.get_father_of(4), Some(4));
    assert_eq!(ds.get_father_of(9), None);
    assert_eq!(sorted(ds.get_root_items()), vec![4, 6]);
    let node = ds.get_set(3).unwrap();
    assert_eq!(node.get_father(&ds), 6);
}

#[test]
fn neighbors_after_clear_data_are_other_roots() {
    let mut ds = chain();
    ds.create_new(5, [1, 2]).unwrap();
    ds.create_new(6, [3, 4]).unwrap();
    ds.clear_data();
    let roots = sorted(ds.get_root_items());
    assert_eq!(roots, vec![5, 6]);
    for r in roots {
        for n in neighbors_of(&ds, r) {
            assert!(ds.is_root_item(n));
            assert_ne!(n, r);
        }
    }
    assert_eq!(neighbors_of(&ds, 5), vec![6]);
}

#[test]
fn merge_order_does_not_change_grouping() {
    let mut x = chain();
    x.create_new(5, [1, 2]).unwrap();
    x.create_new(6, [3, 4]).unwrap();
    let mut y = chain();
    y.create_new(5, [3, 4]).unwrap();
    y.create_new(6, [1, 2]).unwrap();
    for u in 1..=4 {
        for v in 1..=4 {
            let same_x = x.get_father_of(u) == x.get_father_of(v);
            let same_y = y.get_father_of(u) == y.get_father_of(v);
            assert_eq!(same_x, same_y);
        }
    }
}

#[test]
fn pairs_to_check_use_each_id_once() {
    let mut ds = DisjointSets::new();
    for i in 0..6 {
        ds.add_item(i).unwrap();
    }
    for (a, b) in [(0, 1), (1, 2), (2, 3), (3, 4), (4, 5), (5, 0), (0, 3)] {
        ds.set_as_neighbors(a, b).unwrap();
    }
    let pairs = ds.get_tuple_of_items_to_check();
    assert!(!pairs.is_empty());
    let mut seen = Vec::new();
    for [a, b] in &pairs {
        assert!(ds.is_root_item(*a));
        assert!(ds.get_set(*a).unwrap().neighbors.contains(b));
        seen.push(*a);
        seen.push(*b);
    }
    let n = seen.len();
    assert_eq!(sorted(seen).len(), n);
}

#[test]
fn unite_sets_both_parents() {
    let mut ds = chain();
    ds.create_new(5, [2, 3]).unwrap();
    assert_eq!(ds.get_set(2).unwrap().father, 5);
    assert_eq!(ds.get_set(3).unwrap().father, 5);
    assert_eq!(ds.get_set(5).unwrap().father, 5);
    ds.create_new(6, [3, 4]).unwrap();
    assert_eq!(ds.get_set(5).unwrap().father, 6);
    assert_eq!(ds.get_set(4).unwrap().father, 6);
}

#[test]
fn unite_in_single_element_forest() {
    let mut ds = DisjointSets::new();
    ds.add_item(7).unwrap();
    ds.create_new(8, [7, 7]).unwrap();
    assert_eq!(ds.get_root_items(), vec![8]);
}

#[test]
fn disjoint_set_errors() {
    let mut ds = chain();
    assert_eq!(ds.add_item(1), Err(SplitMergeError::DuplicateId));
    assert_eq!(ds.set_as_neighbors(1, 9), Err(SplitMergeError::NotFound));
    assert_eq!(ds.mark_as_non_neighbors(9, 1), Err(SplitMergeError::NotFound));
    assert_eq!(ds.create_new(10, [1, 9]), Err(SplitMergeError::NotFound));
    assert_eq!(ds.create_new(4, [1, 2]), Err(SplitMergeError::DuplicateId));
    assert!(ds.get_set(9).is_none());
}

#[test]
fn rejected_pair_is_not_proposed_again() {
    let mut ds = DisjointSets::new();
    ds.add_item(1).unwrap();
    ds.add_item(2).unwrap();
    ds.set_as_neighbors(1, 2).unwrap();
    assert_eq!(ds.get_tuple_of_items_to_check().len(), 1);
    ds.mark_as_non_neighbors(1, 2).unwrap();
    assert!(ds.get_tuple_of_items_to_check().is_empty());
    assert!(neighbors_of(&ds, 1).is_empty());
}

#[test]
fn set_father_changes_only_the_parent() {
    let mut ds = DisjointSets::new();
    ds.add_item(3).unwrap();
    let node = ds.get_set(3).unwrap();
    let mut copy = split_merge::DisjointSet { id: node.id, father: node.father, neighbors: node.neighbors.clone() };
    copy.set_father(11);
    assert_eq!(copy.father, 11);
    assert_eq!(copy.id, 3);
}
