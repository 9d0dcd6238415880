use mrdt::{Id, Timestamp, VectorClock};

#[test]
fn vector_clock_test_merge() {
    let id1 = Id::gen();
    let id2 = Id::gen();
    let id3 = Id::gen();

    let vc1 = VectorClock::from_entries([(id1, Timestamp::from(5)), (id2, Timestamp::from(3))].as_slice());
    let vc2 = VectorClock::from_entries([(id2, Timestamp::from(4)), (id3, Timestamp::from(6))].as_slice());

    let merged = VectorClock::merge(&vc1, &vc2);
    assert_eq!(merged.time_of(id1), Some(Timestamp::from(5)));
    assert_eq!(merged.time_of(id2), Some(Timestamp::from(4)));
    assert_eq!(merged.time_of(id3), Some(Timestamp::from(6)));
}

#[test]
fn test_lca() {
    let id1 = Id::gen();
    let id2 = Id::gen();

    let vc1 = VectorClock::from_entries([(id1, Timestamp::from(5)), (id2, Timestamp::from(3))].as_slice());
    let vc2 = VectorClock::from_entries([(id2, Timestamp::from(4))].as_slice());

    let lca = VectorClock::lca(&vc1, &vc2);
    assert_eq!(lca.time_of(id1), None);
    assert_eq!(lca.time_of(id2), Some(Timestamp::from(3)));
}

#[test]
fn test_sum() {
    let id1 = Id::gen();
    let id2 = Id::gen();
    let id3 = Id::gen();

    let vc = VectorClock::from_entries(
        [
            (id1, Timestamp::from(5)),
            (id2, Timestamp::from(3)),
            (id3, Timestamp::from(7)),
        ]
        .as_slice(),
    );

    assert_eq!(vc.sum(), Timestamp::from(15));
}

#[test]
fn test_is_empty() {
    let vc = VectorClock::default();
    assert!(vc.is_empty());

    let id1 = Id::gen();
    let vc = VectorClock::from_entries([(id1, Timestamp::from(1))].as_slice());
    assert!(!vc.is_empty());
}

#[test]
fn test_len() {
    let vc = VectorClock::default();
    assert_eq!(vc.len(), 0);

    let id1 = Id::gen();
    let id2 = Id::gen();
    let vc = VectorClock::from_entries([(id1, Timestamp::from(1)), (id2, Timestamp::from(2))].as_slice());
    assert_eq!(vc.len(), 2);
}

#[test]
fn test_time_of() {
    let id1 = Id::gen();
    let id2 = Id::gen();

    let vc = VectorClock::from_entries([(id1, Timestamp::from(2))].as_slice());

    assert_eq!(vc.time_of(id1), Some(Timestamp::from(2)));
    assert_eq!(vc.time_of(id2), None);
}

#[test]
fn test_inc_new_id() {
    let mut vc = VectorClock::default();
    let id = Id::gen();

    vc.inc(id);
    assert_eq!(vc.time_of(id), Some(Timestamp::from(1)));
}

#[test]
fn test_inc_multiple_times() {
    let mut vc = VectorClock::default();
    let id = Id::gen();

    for i in 1..=5 {
        vc.inc(id);
        assert_eq!(vc.time_of(id), Some(Timestamp::from(i)));
    }
}

#[test]
fn test_inc_multiple_ids() {
    let mut vc = VectorClock::default();
    let id1 = Id::gen();
    let id2 = Id::gen();

    vc.inc(id1);
    vc.inc(id2);
    vc.inc(id1);

    assert_eq!(vc.time_of(id1), Some(Timestamp::from(2)));
    assert_eq!(vc.time_of(id2), Some(Timestamp::from(1)));
}

#[test]
fn test_inc_from_non_zero() {
    let id = Id::gen();
    let mut vc = VectorClock::from_entries([(id, Timestamp::from(5))].as_slice());

    vc.inc(id);
    assert_eq!(vc.time_of(id), Some(Timestamp::from(6)));
}

fn clock(entries: &[(u128, u32)]) -> VectorClock {
    let e: Vec<(Id, Timestamp)> = entries.iter().map(|(i, t)| (Id(*i), Timestamp::from(*t))).collect();
    VectorClock::from_entries(e.as_slice())
}

#[test]
fn clock_lattice_laws_on_values() {
    let a = clock(&[(1, 5), (2, 3)]);
    let b = clock(&[(2, 4), (3, 6)]);
    let c = clock(&[(1, 1), (3, 9), (4, 2)]);
    assert_eq!(VectorClock::merge(&a, &a), a);
    assert_eq!(VectorClock::merge(&a, &b), VectorClock::merge(&b, &a));
    assert_eq!(
        VectorClock::merge(&VectorClock::merge(&a, &b), &c),
        VectorClock::merge(&a, &VectorClock::merge(&b, &c))
    );
    assert_eq!(VectorClock::lca(&a, &a), a);
    assert_eq!(VectorClock::lca(&a, &b), VectorClock::lca(&b, &a));
    assert_eq!(
        VectorClock::lca(&VectorClock::lca(&a, &b), &c),
        VectorClock::lca(&a, &VectorClock::lca(&b, &c))
    );
    assert_eq!(VectorClock::lca(&a, &VectorClock::merge(&a, &b)), a);
}

#[test]
fn clock_lca_keeps_common_ids() {
    let lca = VectorClock::lca(&clock(&[(1, 5), (2, 3)]), &clock(&[(2, 4)]));
    assert_eq!(lca, clock(&[(2, 3)]));
}

#[test]
fn later_entry_wins_and_equal_clocks_are_equal() {
    assert_eq!(clock(&[(1, 5), (1, 2)]).time_of(Id(1)), Some(Timestamp::from(2)));
    assert_eq!(clock(&[(2, 1), (1, 1)]), clock(&[(1, 1), (2, 1)]));
}
