use std::collections::HashSet;

use mrdt::{map_to_ordering, toposort, MrdtOrd, MrdtSet};

fn ord_of(items: &[u64]) -> MrdtOrd {
    let mut o = MrdtOrd::default();
    for (i, x) in items.iter().enumerate() {
        o.insert(i, *x);
    }
    o
}

#[test]
fn test_map_to_ordering() {
    let mut ordering = MrdtOrd::default();
    ordering.insert(0, 'a' as u64);
    ordering.insert(1, 'b' as u64);
    ordering.insert(2, 'c' as u64);

    let result: HashSet<(u64, u64)> = map_to_ordering(&ordering).into_iter().collect();

    let expected: HashSet<(u64, u64)> = vec![('a' as u64, 'b' as u64), ('b' as u64, 'c' as u64)]
        .into_iter()
        .collect();

    assert_eq!(result, expected);
}

#[test]
fn test_map_to_ordering_empty_map() {
    let ordering = MrdtOrd::default();

    let result = map_to_ordering(&ordering);

    assert!(result.is_empty());
}

#[test]
fn test_merge_with_complex_scenario() {
    let mut lca = MrdtOrd::default();
    lca.insert(0, 1);
    lca.insert(1, 2);
    lca.insert(2, 3);

    let mut left = MrdtOrd::default();
    left.insert(0, 1);
    left.insert(1, 2);
    left.insert(2, 3);
    left.insert(3, 4);

    let mut right = MrdtOrd::default();
    right.insert(0, 1);
    right.insert(1, 3);

    let mut merged_mem = MrdtSet::default();
    merged_mem.insert(1);
    merged_mem.insert(3);
    merged_mem.insert(4);

    let result = MrdtOrd::merge(&lca, &left, &right, &merged_mem);

    assert_eq!(result.len(), 3);
    assert_eq!(result.index_of(&1), Some(0));
    assert_eq!(result.index_of(&3), Some(1));
    assert_eq!(result.index_of(&4), Some(2));
    assert_eq!(result.index_of(&2), None);
}

#[test]
fn ord_indices_stay_a_prefix() {
    let mut o = MrdtOrd::new();
    o.insert(0, 10);
    o.insert(0, 20);
    o.insert(1, 30);
    assert_eq!(o.iter(), vec![20, 30, 10]);
    assert_eq!(o.remove_at(1), Some(30));
    assert_eq!(o.remove_at(7), None);
    o.insert(2, 40);
    o.remove(&20);
    assert_eq!(o.iter(), vec![10, 40]);
    for (i, x) in o.iter().iter().enumerate() {
        assert_eq!(o.index_of(x), Some(i));
    }
    assert!(o.contains(&40));
    assert!(!o.contains(&20));
}

#[test]
fn toposort_orders_chain_and_breaks_ties_by_value() {
    assert_eq!(toposort(&vec![(3, 1), (1, 2)]), vec![3, 1, 2]);
    // 5 and 4 are both ready at first: the smaller goes first
    assert_eq!(toposort(&vec![(5, 9), (4, 9)]), vec![4, 5, 9]);
    assert_eq!(toposort(&vec![]), Vec::<u64>::new());
}

#[test]
fn toposort_on_cycle_takes_least_left() {
    // 1 -> 2 -> 3 -> 1 : no node is ready, the least goes next
    assert_eq!(toposort(&vec![(1, 2), (2, 3), (3, 1)]), vec![1, 2, 3]);
    // 7 is ready first; then the cycle 2 <-> 3 leaves nothing ready
    assert_eq!(toposort(&vec![(7, 3), (2, 3), (3, 2)]), vec![7, 2, 3]);
    // once blocked, what is left follows in ascending order, even where
    // placing 1 would have made 9 ready
    assert_eq!(toposort(&vec![(1, 9), (9, 1), (9, 5)]), vec![1, 5, 9]);
}

#[test]
fn toposort_does_not_depend_on_the_order_of_pairs() {
    let pairs = vec![(1, 2), (2, 3), (4, 1), (5, 2), (2, 6), (6, 3)];
    let expected = toposort(&pairs);
    let mut reversed = pairs.clone();
    reversed.reverse();
    assert_eq!(toposort(&reversed), expected);
    let mut rotated = pairs.clone();
    rotated.rotate_left(2);
    assert_eq!(toposort(&rotated), expected);
    let mut doubled = pairs.clone();
    doubled.extend(pairs.iter().cloned());
    assert_eq!(toposort(&doubled), expected);
}

#[test]
fn ord_merge_single_survivor() {
    let lca = ord_of(&[]);
    let left = ord_of(&[8]);
    let right = ord_of(&[]);
    let mem = MrdtSet::from_vec(vec![8]);
    assert_eq!(MrdtOrd::merge(&lca, &left, &right, &mem).iter(), vec![8]);
}
