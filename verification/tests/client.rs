use std::collections::HashMap;

use transaction_ids::keys::{federation_txnid_key, userdevicetxnid_key};
use transaction_ids::{DeviceId, Insert, Query, ServerName, Service, TransactionId, UserId};

type Maps = HashMap<String, HashMap<Vec<u8>, Vec<u8>>>;

fn user(id: &str) -> UserId {
    UserId::new(id)
}

fn apply(maps: &mut Maps, insert: Insert<'_, '_>) {
    maps.entry(insert.map.to_owned()).or_default().insert(insert.key, insert.value.to_vec());
}

fn answer(maps: &Maps, query: Query<'_>) -> Option<Vec<u8>> {
    maps.get(query.map).and_then(|map| map.get(&query.key)).cloned()
}

#[test]
fn federation_key_has_the_separator_between_its_parts() {
    let origin = ServerName::parse("example.com:8448").expect("valid server name");
    let key = federation_txnid_key(&origin, &TransactionId::new("t\u{e9}"));
    assert_eq!(key, b"example.com:8448\xFFt\xC3\xA9".to_vec());
}

#[test]
fn user_device_key_has_an_empty_part_for_a_missing_device() {
    let carl = user("@carl:example.com");
    let txn = TransactionId::new("txn1");
    assert_eq!(
        userdevicetxnid_key(&carl, Some(&DeviceId::new("PHONE")), &txn),
        b"@carl:example.com\xFFPHONE\xFFtxn1".to_vec()
    );
    assert_eq!(
        userdevicetxnid_key(&carl, None, &txn),
        b"@carl:example.com\xFF\xFFtxn1".to_vec()
    );
    assert_eq!(
        userdevicetxnid_key(&carl, Some(&DeviceId::new("")), &txn),
        userdevicetxnid_key(&carl, None, &txn)
    );
}

#[test]
fn parts_of_a_key_do_not_run_into_each_other() {
    let carl = user("@carl:example.com");
    assert_ne!(
        userdevicetxnid_key(&carl, Some(&DeviceId::new("ab")), &TransactionId::new("c")),
        userdevicetxnid_key(&carl, Some(&DeviceId::new("a")), &TransactionId::new("bc"))
    );
    let (a, ab) = (ServerName::parse("a").unwrap(), ServerName::parse("ab").unwrap());
    assert_ne!(
        federation_txnid_key(&a, &TransactionId::new("bc")),
        federation_txnid_key(&ab, &TransactionId::new("c"))
    );
}

#[test]
fn recorded_answer_is_read_back() {
    let service = Service::build(10);
    let mut maps = Maps::new();
    let (carl, dora) = (user("@carl:example.com"), user("@dora:example.com"));
    let (phone, laptop) = (DeviceId::new("PHONE"), DeviceId::new("LAPTOP"));
    let txn = TransactionId::new("txn1");

    assert_eq!(answer(&maps, service.existing_txnid(&carl, Some(&phone), &txn)), None);

    let insert = service.add_txnid(&carl, Some(&phone), &txn, b"$event:example.com");
    assert_eq!(insert.map, "userdevicetxnid_response");
    assert_eq!(insert.value, b"$event:example.com");
    apply(&mut maps, insert);

    assert_eq!(
        answer(&maps, service.existing_txnid(&carl, Some(&phone), &txn)),
        Some(b"$event:example.com".to_vec())
    );
    assert_eq!(answer(&maps, service.existing_txnid(&carl, Some(&laptop), &txn)), None);
    assert_eq!(answer(&maps, service.existing_txnid(&carl, None, &txn)), None);
    assert_eq!(answer(&maps, service.existing_txnid(&dora, Some(&phone), &txn)), None);
    assert_eq!(
        answer(&maps, service.existing_txnid(&carl, Some(&phone), &TransactionId::new("txn2"))),
        None
    );
}

#[test]
fn recorded_answer_without_device_is_read_back() {
    let service = Service::build(10);
    let mut maps = Maps::new();
    let carl = user("@carl:example.com");
    let txn = TransactionId::new("txn1");
    apply(&mut maps, service.add_txnid(&carl, None, &txn, b""));
    assert_eq!(answer(&maps, service.existing_txnid(&carl, None, &txn)), Some(Vec::new()));
    apply(&mut maps, service.add_txnid(&carl, None, &txn, b"later"));
    assert_eq!(answer(&maps, service.existing_txnid(&carl, None, &txn)), Some(b"later".to_vec()));
}

#[test]
fn query_names_the_map_and_the_key() {
    let service = Service::build(0);
    let query = service.existing_txnid(
        &user("@carl:example.com"),
        Some(&DeviceId::new("PHONE")),
        &TransactionId::new("txn1"),
    );
    assert_eq!(query.map, "userdevicetxnid_response");
    assert_eq!(query.key, b"@carl:example.com\xFFPHONE\xFFtxn1".to_vec());
}

#[test]
fn server_names_are_checked() {
    assert!(ServerName::parse("example.com").is_ok());
    assert!(ServerName::parse("[::1]:8448").is_ok());
    assert!(ServerName::parse("").is_err());
    assert!(ServerName::parse(":8448").is_err());
    assert!(ServerName::parse("exa mple.com").is_err());
    assert_eq!(ServerName::parse("example.com").unwrap().as_bytes(), b"example.com");
}

#[test]
fn user_ids_are_taken_as_they_are() {
    let long = format!("@{}:example.com", "c".repeat(300));
    let key = userdevicetxnid_key(&user(&long), None, &TransactionId::new("txn1"));
    assert_eq!(key, [long.as_bytes(), b"\xFF\xFFtxn1"].concat());
    assert_eq!(user("@carl:example.com").as_bytes(), b"@carl:example.com");
}
