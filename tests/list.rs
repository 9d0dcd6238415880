use mrdt::MrdtList;

fn list_of(items: &[u64]) -> MrdtList {
    let mut l = MrdtList::new();
    for x in items {
        l.add(*x);
    }
    l
}

#[test]
fn test_list_merge_add() {
    let (item1, item2, item3, item4, item5) = (1, 2, 3, 4, 5);

    let lca = list_of(&[item1, item2, item3]);

    let mut replica1 = lca.clone();
    let mut replica2 = lca.clone();

    replica1.add(item4);
    replica2.remove_at(0);
    replica2.add(item5);

    let merged_list = MrdtList::merge(&lca, &replica1, &replica2);
    assert_eq!(merged_list.len(), 4);
    assert_eq!(merged_list.index_of(&item2), Some(0));
    assert_eq!(merged_list.index_of(&item3), Some(1));
    assert_eq!(merged_list.index_of(&item4), Some(2));
    assert_eq!(merged_list.index_of(&item5), Some(3));
}

#[test]
fn test_list_merge_insert() {
    let (item1, item2, item3, item4, item5) = (1, 2, 3, 4, 5);

    let lca = list_of(&[item1, item2, item3]);

    let mut replica1 = lca.clone();
    let mut replica2 = lca.clone();

    replica1.insert(0, item4);
    replica2.remove_at(0);
    replica2.insert(0, item5);

    let merged_list = MrdtList::merge(&lca, &replica1, &replica2);
    assert_eq!(merged_list.len(), 4);
    assert_eq!(merged_list.index_of(&item4), Some(0));
    assert_eq!(merged_list.index_of(&item5), Some(1));
    assert_eq!(merged_list.index_of(&item2), Some(2));
    assert_eq!(merged_list.index_of(&item3), Some(3));
}

#[test]
fn list_merge_same_inputs_same_result() {
    let lca = list_of(&[10, 20, 30, 40]);
    let mut a = lca.clone();
    a.insert(2, 25);
    a.remove_at(0);
    let mut b = lca.clone();
    b.insert(4, 50);
    b.insert(1, 15);
    let m1 = MrdtList::merge(&lca, &a, &b);
    let m2 = MrdtList::merge(&lca.clone(), &a.clone(), &b.clone());
    assert_eq!(m1.iter(), m2.iter());
    assert_eq!(m1.iter(), vec![15, 20, 25, 30, 40, 50]);
}

#[test]
fn list_merge_keeps_every_member() {
    // both sides add a lone element to an empty ancestor
    let lca = list_of(&[]);
    let a = list_of(&[9]);
    let b = list_of(&[4]);
    let merged = MrdtList::merge(&lca, &a, &b);
    assert_eq!(merged.iter(), vec![4, 9]);
}

#[test]
fn list_insert_and_remove() {
    let mut l = list_of(&[1, 2]);
    l.insert(1, 7);
    assert_eq!(l.iter(), vec![1, 7, 2]);
    assert!(l.contains(&7));
    assert_eq!(l.remove_at(0), Some(1));
    assert_eq!(l.remove_at(5), None);
    assert_eq!(l.iter(), vec![7, 2]);
    assert!(!l.contains(&1));
    assert!(!l.is_empty());
}
