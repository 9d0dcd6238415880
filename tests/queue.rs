use mrdt::MrdtQueue;

#[test]
fn test_queue_empty() {
    let queue: MrdtQueue = MrdtQueue::default();
    assert_eq!(queue.len(), 0);
}

#[test]
fn test_queue_push() {
    let mut queue: MrdtQueue = MrdtQueue::default();
    let (item1, item2, item3) = (1, 2, 3);

    queue.push(item1);
    queue.push(item2);
    queue.push(item3);

    assert_eq!(queue.len(), 3);
    assert_eq!(queue.index_of(&item1), Some(0));
    assert_eq!(queue.index_of(&item2), Some(1));
    assert_eq!(queue.index_of(&item3), Some(2));
}

#[test]
fn test_queue_pop() {
    let mut queue: MrdtQueue = MrdtQueue::default();
    let (item1, item2, item3) = (1, 2, 3);

    queue.push(item1);
    queue.push(item2);
    queue.push(item3);

    assert_eq!(queue.len(), 3);
    let popped = queue.pop();
    assert_eq!(queue.len(), 2);
    assert_eq!(popped, Some(item1));
    assert_eq!(queue.index_of(&item2), Some(0));
    assert_eq!(queue.index_of(&item3), Some(1));
}

#[test]
fn test_queue_merge() {
    let mut lca: MrdtQueue = MrdtQueue::default();
    let (item1, item2, item3, item4, item5) = (1, 2, 3, 4, 5);

    lca.push(item1);
    lca.push(item2);
    lca.push(item3);

    let mut replica1 = lca.clone();
    replica1.push(item4);

    let mut replica2 = lca.clone();
    replica2.pop();
    replica2.push(item5);

    let merged_queue = MrdtQueue::merge(&lca, &replica1, &replica2);
    assert_eq!(merged_queue.len(), 4);
    assert_eq!(merged_queue.index_of(&item2), Some(0));
    assert_eq!(merged_queue.index_of(&item3), Some(1));
    assert_eq!(merged_queue.index_of(&item4), Some(2));
    assert_eq!(merged_queue.index_of(&item5), Some(3));
}

#[test]
fn queue_pop_on_empty() {
    let mut queue = MrdtQueue::new();
    assert!(queue.is_empty());
    assert_eq!(queue.pop(), None);
    queue.push(8);
    assert!(queue.contains(&8));
    assert_eq!(queue.iter(), vec![8]);
    assert_eq!(queue.pop(), Some(8));
    assert!(queue.is_empty());
}
