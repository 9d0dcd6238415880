use mrdt::{Id, MemStore, MrdtList, MrdtSet, Replica, StoreError, VectorClock};
use rand::Rng;

#[test]
fn round_trip_of_a_large_list() {
    let mut store = MemStore::new();
    let items: Vec<u64> = (0..1000u64).map(|i| i * 7 + 3).collect();
    let root = store.insert_versioned(&items).unwrap();
    let back = store.resolve_versioned(root).unwrap().unwrap();
    assert_eq!(back.len(), 1000);
    for (a, b) in back.iter().zip(items.iter()) {
        assert_eq!(a, b);
    }
    let counts = store.table_counts();
    assert_eq!(counts.objects, 1000);
    assert_eq!(counts.refs, 1000);
    assert_eq!(counts.commits, 0);
}

#[test]
fn appending_one_item_adds_one_ref() {
    let mut store = MemStore::new();
    let items: Vec<u64> = (0..50u64).collect();
    store.insert_versioned(&items).unwrap();
    let mut longer = items.clone();
    longer.push(99);
    store.insert_versioned(&longer).unwrap();
    assert_eq!(store.table_counts().refs, 51);
}

#[test]
fn empty_structure_is_refused() {
    let mut store = MemStore::new();
    assert_eq!(store.insert_versioned(&vec![]), Err(StoreError::Invariant));
    assert_eq!(store.resolve_versioned(12345), Ok(None));
}

#[test]
fn object_refs_are_content_addressed() {
    let mut store = MemStore::new();
    let a = store.insert_object(17);
    let b = store.insert_object(17);
    assert_eq!(a, b);
    assert_eq!(store.resolve_object(a), Some(17));
    assert_eq!(store.resolve_object(a.wrapping_add(1)), None);
}

#[test]
fn clone_needs_a_commit() {
    let mut store = MemStore::new();
    assert!(matches!(Replica::clone(Id::gen(), &mut store), Err(StoreError::NotFound)));
    assert!(matches!(store.resolve_commit(Id::gen()), Err(StoreError::NotFound)));
    assert!(matches!(store.latest_commit_for_replica(Id::gen()), Ok(None)));
}

#[test]
fn commit_chain_reaches_the_start() {
    let mut store = MemStore::new();
    let root = store.insert_versioned(&vec![1, 2, 3]).unwrap();
    let main = Id::gen();
    store.commit(main, VectorClock::new(), root).unwrap();
    let mut replica = Replica::clone(Id::gen(), &mut store).unwrap();
    let start = replica.latest_commit().id;
    let n = 8;
    for i in 0..n {
        replica.commit_object(&mut store, &vec![1, 2, 3, 100 + i]).unwrap();
    }
    let mut id = replica.latest_commit().id;
    let mut links = 0;
    while id != start {
        let c = store.resolve_commit(id).unwrap();
        id = c.parent_commit_id.unwrap();
        links += 1;
    }
    assert_eq!(links, n);
    assert_eq!(replica.latest_version().time_of(replica.id()).unwrap().value(), n as u32);
    let items = replica.latest_object(&store).unwrap().unwrap();
    assert_eq!(items, vec![1, 2, 3, 107]);
}

#[test]
fn commit_for_version_finds_the_first() {
    let mut store = MemStore::new();
    let root = store.insert_versioned(&vec![4]).unwrap();
    let r = Id::gen();
    let c1 = store.commit(r, VectorClock::new(), root).unwrap();
    let c2 = store.commit(r, VectorClock::new(), root).unwrap();
    assert_eq!(c2.parent_commit_id, Some(c1.id));
    let found = store.resolve_commit_for_version(&VectorClock::new()).unwrap();
    assert_eq!(found.id, c1.id);
    let head = store.latest_commit_for_replica(r).unwrap().unwrap();
    assert_eq!(head.id, c2.id);
}

/// Characters of a document as items: a unique serial above the character.
fn item(serial: u64, c: char) -> u64 {
    (serial << 21) | c as u64
}

fn text(items: &[u64]) -> String {
    items.iter().map(|i| char::from_u32((*i & 0x1f_ffff) as u32).unwrap()).collect()
}

#[test]
fn three_replicas_converge() {
    let mut rng = rand::thread_rng();
    let mut serial: u64 = 0;
    let mut store = MemStore::new();
    let initial: Vec<u64> = "---".chars().map(|c| { serial += 1; item(serial, c) }).collect();
    let root = store.insert_versioned(&initial).unwrap();
    store.commit(Id::gen(), VectorClock::new(), root).unwrap();

    let mut replicas: Vec<Replica> = (0..3).map(|_| Replica::clone(Id::gen(), &mut store).unwrap()).collect();
    for _round in 0..100 {
        for i in 0..3 {
            let items = replicas[i].latest_object(&store).unwrap().unwrap();
            let mut doc = MrdtList::from_items(&items).unwrap();
            for _ in 0..10 {
                serial += 1;
                let c = (b'a' + rng.gen_range(0..26u8)) as char;
                let at = rng.gen_range(0..=doc.len());
                doc.insert(at, item(serial, c));
            }
            replicas[i].commit_object(&mut store, &doc.iter()).unwrap();
            let previous = replicas[(i + 2) % 3].id();
            replicas[i].merge_with(&mut store, previous).unwrap();
        }
    }
    for i in 0..3 {
        for j in 0..3 {
            if i != j {
                let other = replicas[j].id();
                replicas[i].merge_with(&mut store, other).unwrap();
            }
        }
    }
    let texts: Vec<String> = replicas
        .iter()
        .map(|r| text(&r.latest_object(&store).unwrap().unwrap()))
        .collect();
    assert_eq!(texts[0].chars().count(), 3 + 3 * 100 * 10);
    assert_eq!(texts[0], texts[1]);
    assert_eq!(texts[1], texts[2]);
}

#[test]
fn replicas_merge_sets_through_the_store() {
    let mut store = MemStore::new();
    let root = store.insert_versioned(&vec![10, 20]).unwrap();
    store.commit(Id::gen(), VectorClock::new(), root).unwrap();
    let mut r1 = Replica::clone(Id::gen(), &mut store).unwrap();
    let mut r2 = Replica::clone(Id::gen(), &mut store).unwrap();
    // r1 adds 30 and drops 10; r2 adds 5
    r1.commit_object(&mut store, &vec![20, 30]).unwrap();
    r2.commit_object(&mut store, &vec![5, 10, 20]).unwrap();
    let (commit, merged) = r1.merge_set_with(&mut store, r2.id()).unwrap();
    assert_eq!(merged.iter(), vec![5, 20, 30]);
    assert_eq!(commit.version.time_of(r1.id()).unwrap().value(), 1);
    assert_eq!(commit.version.time_of(r2.id()).unwrap().value(), 1);
    let stored = MrdtSet::from_vec(r1.latest_object(&store).unwrap().unwrap());
    assert_eq!(stored.iter(), vec![5, 20, 30]);
    assert!(matches!(r1.merge_set_with(&mut store, Id::gen()), Err(StoreError::NotFound)));
}

#[test]
fn test_serialize_deserialize() {
    let list = vec![1u64, 2, 3];

    let mut store = MemStore::new();

    let root = store.insert_versioned(&list).unwrap();

    let deserialized = store.resolve_versioned(root).unwrap().unwrap();

    assert_eq!(deserialized, list);
}

#[test]
fn taken_commit_ids_are_refused() {
    let mut store = MemStore::new();
    let root = store.insert_versioned(&vec![1, 2]).unwrap();
    let first = store.commit(Id::gen(), VectorClock::new(), root).unwrap();
    assert_eq!(
        store.commit_with_id(Id::gen(), VectorClock::new(), root, first.id).err(),
        Some(StoreError::Invariant)
    );
    let mut r1 = Replica::clone(Id::gen(), &mut store).unwrap();
    let r2 = Replica::clone(Id::gen(), &mut store).unwrap();
    assert_eq!(r1.commit_object_with_id(&mut store, &vec![], Id::gen()).err(), Some(StoreError::Invariant));
    assert_eq!(r1.commit_object_with_id(&mut store, &vec![1, 2, 3], first.id).err(), Some(StoreError::Invariant));
    assert_eq!(r1.latest_commit().id, first.id);
    let fresh = Id::gen();
    let c = r1.commit_object_with_id(&mut store, &vec![1, 2, 3], fresh).unwrap();
    assert_eq!(c.id, fresh);
    assert_eq!(c.parent_commit_id, Some(first.id));
    assert!(r1.merge_with_id(&mut store, r2.id(), fresh).is_err());
    let m = Id::gen();
    let (mc, merged) = r1.merge_with_id(&mut store, r2.id(), m).unwrap();
    assert_eq!(mc.id, m);
    assert_eq!(merged.iter(), vec![1, 2, 3]);
    assert_eq!(store.latest_commit_for_replica(r1.id()).unwrap().unwrap().id, m);
    assert_eq!(store.resolve_versioned(mc.root_ref).unwrap().unwrap(), vec![1, 2, 3]);
}
