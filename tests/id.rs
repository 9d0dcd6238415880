use std::collections::HashSet;

use mrdt::{Id, Timestamp};

#[test]
fn test_ids_are_unique() {
    let entries = (0..1000).map(|_| Id::gen()).collect::<HashSet<_>>();

    assert!(entries.len() == 1000);
}

#[test]
fn test_id_generation_and_conversion() {
    let id = Id::gen();
    let str_id = id.as_str();
    assert_eq!(str_id.len(), 16);

    let converted_id = Id::parse(&str_id).unwrap();
    assert_eq!(id, converted_id);
}

#[test]
fn test_id_zero() {
    let zero_id = Id::zero();
    assert_eq!(zero_id.as_str(), "\0\0\0\0\0\0\0\0\0\0\0\0\0\0\0\0");
}

#[test]
fn generated_ids_are_alphanumeric() {
    for _ in 0..100 {
        let s = Id::gen().as_str();
        assert!(s.chars().all(|c| c.is_ascii_alphanumeric()));
        assert_eq!(s.chars().count(), 16);
    }
}

#[test]
fn parse_reads_bytes_big_endian() {
    let id = Id::parse("AAAAAAAAAAAAAAAB").unwrap();
    assert_eq!(id.0, 0x41414141_41414141_41414141_41414142);
    assert_eq!(id.as_str(), "AAAAAAAAAAAAAAAB");
    assert!(Id::parse("short").is_none());
    assert!(Id::parse("seventeen chars!!").is_none());
}

#[test]
fn ids_order_as_their_bytes() {
    let a = Id::parse("AAAAAAAAAAAAAAAA").unwrap();
    let b = Id::parse("AAAAAAAAAAAAAAAB").unwrap();
    let c = Id::parse("BAAAAAAAAAAAAAAA").unwrap();
    assert!(a < b && b < c);
}

#[test]
fn timestamp_counts_up() {
    assert_eq!(Timestamp::zero(), Timestamp::from(0));
    assert_eq!(Timestamp::zero().inc().inc(), Timestamp::from(2));
    assert_eq!(Timestamp::from(41).inc().value(), 42);
}
