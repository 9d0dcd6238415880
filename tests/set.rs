use mrdt::MrdtSet;

fn set_of(items: &[u64]) -> MrdtSet {
    MrdtSet::from_vec(items.to_vec())
}

#[test]
fn set_test_merge() {
    let entity1 = 101;
    let entity2 = 102;
    let entity3 = 103;

    let mut set1 = MrdtSet::default();
    set1.insert(entity1);
    set1.insert(entity2);

    let mut set2 = MrdtSet::default();
    set2.insert(entity2);
    set2.insert(entity3);

    let mut lca = MrdtSet::default();
    lca.insert(entity2);

    let merged = MrdtSet::merge(&lca, &set1, &set2);
    assert!(merged.contains(&entity1));
    assert!(merged.contains(&entity2));
    assert!(merged.contains(&entity3));
}

#[test]
fn set_merge_adds_from_both_sides() {
    let merged = MrdtSet::merge(&set_of(&[2]), &set_of(&[1, 2]), &set_of(&[2, 3]));
    assert_eq!(merged.iter(), vec![1, 2, 3]);
}

#[test]
fn set_merge_follows_law() {
    // L = {1,2,3,4}, A = {1,2,5} (removed 3,4), B = {1,3,6} (removed 2,4)
    let l = set_of(&[1, 2, 3, 4]);
    let a = set_of(&[1, 2, 5]);
    let b = set_of(&[1, 3, 6]);
    let merged = MrdtSet::merge(&l, &a, &b);
    // (L ∩ A ∩ B) = {1}; A \ L = {5}; B \ L = {6}
    assert_eq!(merged.iter(), vec![1, 5, 6]);
}

#[test]
fn set_merge_is_commutative_and_idempotent() {
    let l = set_of(&[1, 2]);
    let a = set_of(&[1, 2, 7, 9]);
    let b = set_of(&[2, 8]);
    assert_eq!(MrdtSet::merge(&l, &a, &b).iter(), MrdtSet::merge(&l, &b, &a).iter());
    assert_eq!(MrdtSet::merge(&l, &a, &a).iter(), a.iter());
}

#[test]
fn set_insert_remove() {
    let mut s = MrdtSet::new();
    assert!(s.is_empty());
    assert!(s.insert(5));
    assert!(!s.insert(5));
    assert!(s.insert(1));
    assert_eq!(s.len(), 2);
    assert_eq!(s.iter(), vec![1, 5]);
    assert!(s.remove(&5));
    assert!(!s.remove(&5));
    assert_eq!(s.iter(), vec![1]);
}
