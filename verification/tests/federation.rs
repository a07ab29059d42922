use transaction_ids::{PduOutcome, Response, ServerName, Service, TransactionId};

fn origin(server: &str) -> ServerName {
    ServerName::parse(server).expect("valid server name")
}

fn txn_id(txn: &str) -> TransactionId {
    TransactionId::new(txn)
}

fn empty_response() -> Response {
    Response { pdus: Vec::new() }
}

fn accepted(event_id: &str) -> Response {
    Response { pdus: vec![PduOutcome { event_id: event_id.to_owned(), outcome: Ok(()) }] }
}

fn event_ids(response: Option<Response>) -> Option<Vec<String>> {
    response.map(|response| response.pdus.into_iter().map(|pdu| pdu.event_id).collect())
}

fn usage(service: &Service) -> String {
    let mut output = String::new();
    service.memory_usage(&mut output);
    output
}

#[test]
fn federation_txnid_cache_add_get_and_eviction() {
    let mut service = Service::with_federation_cache_capacity(2);
    let origin = origin("example.com");
    let txn_a = txn_id("txn-a");
    let txn_b = txn_id("txn-b");
    let txn_c = txn_id("txn-c");

    service.add_federation_txnid(&origin, &txn_a, empty_response());
    service.add_federation_txnid(&origin, &txn_b, empty_response());

    assert!(service.existing_federation_txnid(&origin, &txn_a).is_some());
    assert!(service.existing_federation_txnid(&origin, &txn_b).is_some());

    service.add_federation_txnid(&origin, &txn_c, empty_response());

    assert!(service.existing_federation_txnid(&origin, &txn_c).is_some());
    assert!(service.existing_federation_txnid(&origin, &txn_b).is_some());
    assert!(service.existing_federation_txnid(&origin, &txn_a).is_none());
}

#[test]
fn federation_txnid_lock_serializes_same_key() {
    let mut service = Service::with_federation_cache_capacity(4);
    let origin = origin("example.com");
    let txn = txn_id("txn-lock");

    let first = service.lock_federation_txnid(&origin, &txn);
    assert!(service.holds_federation_txnid(first));

    let second = service.lock_federation_txnid(&origin, &txn);
    for _ in 0..50 {
        assert!(!service.holds_federation_txnid(second));
    }

    service.unlock_federation_txnid(first);

    assert!(service.holds_federation_txnid(second), "second waiter succeeded");
    assert!(!service.holds_federation_txnid(first));
}

#[test]
fn federation_txnid_cache_is_cleared_by_service_clear_cache() {
    let mut service = Service::with_federation_cache_capacity(8);
    let origin = origin("example.com");
    let txn = txn_id("txn-clear");

    service.add_federation_txnid(&origin, &txn, empty_response());
    assert!(service.existing_federation_txnid(&origin, &txn).is_some());

    service.clear_cache();

    assert!(service.existing_federation_txnid(&origin, &txn).is_none());
}

#[test]
fn federation_txnid_cache_memory_usage_reports_len_and_capacity() {
    let mut service = Service::with_federation_cache_capacity(3);
    let origin = origin("example.com");
    let txn = txn_id("txn-memory");

    service.add_federation_txnid(&origin, &txn, empty_response());

    let mut output = String::new();
    service.memory_usage(&mut output);

    assert!(output.contains("federation_txnid_cache: 1/3"));
}

#[test]
fn memory_usage_appends_one_exact_line() {
    let mut service = Service::with_federation_cache_capacity(1203);
    let origin = origin("example.com");
    for i in 0..10 {
        service.add_federation_txnid(&origin, &txn_id(&format!("txn-{i}")), empty_response());
    }
    let mut output = String::from("before\n");
    service.memory_usage(&mut output);
    assert_eq!(output, "before\nfederation_txnid_cache: 10/1203\n");
    assert_eq!(
        usage(&Service::build(usize::MAX)),
        format!("federation_txnid_cache: 0/{}\n", usize::MAX)
    );
}

#[test]
fn answer_comes_back_as_it_was_added() {
    let mut service = Service::with_federation_cache_capacity(2);
    let origin = origin("example.com");
    let txn = txn_id("txn");
    let response = Response {
        pdus: vec![
            PduOutcome { event_id: "$a:example.com".to_owned(), outcome: Ok(()) },
            PduOutcome {
                event_id: "$b:example.com".to_owned(),
                outcome: Err("not allowed".to_owned()),
            },
        ],
    };
    service.add_federation_txnid(&origin, &txn, response);
    for _ in 0..2 {
        let found = service.existing_federation_txnid(&origin, &txn).expect("cached");
        assert_eq!(found.pdus.len(), 2);
        assert_eq!(found.pdus[0].event_id, "$a:example.com");
        assert_eq!(found.pdus[0].outcome, Ok(()));
        assert_eq!(found.pdus[1].event_id, "$b:example.com");
        assert_eq!(found.pdus[1].outcome, Err("not allowed".to_owned()));
    }
}

#[test]
fn answer_added_again_replaces_the_earlier_one() {
    let mut service = Service::with_federation_cache_capacity(2);
    let origin = origin("example.com");
    let (a, b, c) = (txn_id("a"), txn_id("b"), txn_id("c"));
    service.add_federation_txnid(&origin, &a, accepted("$1"));
    service.add_federation_txnid(&origin, &b, accepted("$2"));
    service.add_federation_txnid(&origin, &a, accepted("$3"));
    assert_eq!(usage(&service), "federation_txnid_cache: 2/2\n");

    // It is the most recently used one now, so the other one goes first.
    service.add_federation_txnid(&origin, &c, accepted("$4"));
    assert_eq!(
        event_ids(service.existing_federation_txnid(&origin, &a)),
        Some(vec!["$3".to_owned()])
    );
    assert!(service.existing_federation_txnid(&origin, &b).is_none());
    assert_eq!(
        event_ids(service.existing_federation_txnid(&origin, &c)),
        Some(vec!["$4".to_owned()])
    );
}

#[test]
fn lookup_keeps_an_answer_from_being_evicted() {
    let mut service = Service::with_federation_cache_capacity(2);
    let origin = origin("example.com");
    let (a, b, c) = (txn_id("a"), txn_id("b"), txn_id("c"));
    service.add_federation_txnid(&origin, &a, accepted("$1"));
    service.add_federation_txnid(&origin, &b, accepted("$2"));
    assert!(service.existing_federation_txnid(&origin, &a).is_some());
    service.add_federation_txnid(&origin, &c, accepted("$3"));
    assert!(service.existing_federation_txnid(&origin, &a).is_some());
    assert!(service.existing_federation_txnid(&origin, &b).is_none());
    assert!(service.existing_federation_txnid(&origin, &c).is_some());
}

#[test]
fn recently_used_answer_outlives_fewer_others_than_the_capacity() {
    let mut service = Service::with_federation_cache_capacity(3);
    let origin = origin("example.com");
    let (a, b, c, d) = (txn_id("a"), txn_id("b"), txn_id("c"), txn_id("d"));
    service.add_federation_txnid(&origin, &a, accepted("$a"));
    for _ in 0..5 {
        service.add_federation_txnid(&origin, &b, accepted("$b"));
        service.add_federation_txnid(&origin, &c, accepted("$c"));
        assert!(service.existing_federation_txnid(&origin, &b).is_some());
    }
    service.add_federation_txnid(&origin, &d, accepted("$d"));
    assert!(service.existing_federation_txnid(&origin, &a).is_none());
    service.add_federation_txnid(&origin, &a, accepted("$a"));
    for _ in 0..5 {
        service.add_federation_txnid(&origin, &b, accepted("$b"));
        service.add_federation_txnid(&origin, &c, accepted("$c"));
    }
    assert_eq!(
        event_ids(service.existing_federation_txnid(&origin, &a)),
        Some(vec!["$a".to_owned()])
    );
}

#[test]
fn cache_of_capacity_zero_keeps_nothing() {
    let mut service = Service::with_federation_cache_capacity(0);
    let origin = origin("example.com");
    let txn = txn_id("txn");
    service.add_federation_txnid(&origin, &txn, accepted("$a"));
    assert!(service.existing_federation_txnid(&origin, &txn).is_none());
    assert_eq!(usage(&service), "federation_txnid_cache: 0/0\n");
}

#[test]
fn transactions_of_different_servers_are_kept_apart() {
    let mut service = Service::with_federation_cache_capacity(4);
    let (one, two) = (origin("example.com"), origin("example.org"));
    let txn = txn_id("txn");
    service.add_federation_txnid(&one, &txn, accepted("$one"));
    assert!(service.existing_federation_txnid(&two, &txn).is_none());
    service.add_federation_txnid(&two, &txn, accepted("$two"));
    assert_eq!(
        event_ids(service.existing_federation_txnid(&one, &txn)),
        Some(vec!["$one".to_owned()])
    );
    assert_eq!(
        event_ids(service.existing_federation_txnid(&two, &txn)),
        Some(vec!["$two".to_owned()])
    );
}

#[test]
fn clear_cache_keeps_the_capacity_and_the_locks() {
    let mut service = Service::with_federation_cache_capacity(2);
    let origin = origin("example.com");
    let txn = txn_id("txn");
    let held = service.lock_federation_txnid(&origin, &txn);
    service.add_federation_txnid(&origin, &txn, accepted("$a"));
    service.clear_cache();
    assert_eq!(usage(&service), "federation_txnid_cache: 0/2\n");
    assert!(service.holds_federation_txnid(held));
    service.add_federation_txnid(&origin, &txn, accepted("$b"));
    assert_eq!(
        event_ids(service.existing_federation_txnid(&origin, &txn)),
        Some(vec!["$b".to_owned()])
    );
}

#[test]
fn locks_on_different_transactions_are_independent() {
    let mut service = Service::with_federation_cache_capacity(1);
    let origin = origin("example.com");
    let a = service.lock_federation_txnid(&origin, &txn_id("a"));
    let b = service.lock_federation_txnid(&origin, &txn_id("b"));
    assert!(service.holds_federation_txnid(a));
    assert!(service.holds_federation_txnid(b));
    service.unlock_federation_txnid(a);
    assert!(service.holds_federation_txnid(b));
}

#[test]
fn locks_are_handed_on_in_the_order_of_asking() {
    let mut service = Service::with_federation_cache_capacity(1);
    let origin = origin("example.com");
    let txn = txn_id("txn");
    let first = service.lock_federation_txnid(&origin, &txn);
    let second = service.lock_federation_txnid(&origin, &txn);
    let third = service.lock_federation_txnid(&origin, &txn);
    let fourth = service.lock_federation_txnid(&origin, &txn);
    // A waiter may give up.
    service.unlock_federation_txnid(second);
    assert!(service.holds_federation_txnid(first));
    assert!(!service.holds_federation_txnid(second));
    assert!(!service.holds_federation_txnid(third));
    service.unlock_federation_txnid(first);
    assert!(service.holds_federation_txnid(third));
    assert!(!service.holds_federation_txnid(fourth));
    service.unlock_federation_txnid(third);
    assert!(service.holds_federation_txnid(fourth));
    // A ticket that is no longer there changes nothing.
    service.unlock_federation_txnid(third);
    assert!(service.holds_federation_txnid(fourth));
}

#[test]
fn lookup_that_finds_nothing_counts_for_nothing() {
    let mut service = Service::with_federation_cache_capacity(2);
    let origin = origin("example.com");
    let (a, b) = (txn_id("a"), txn_id("b"));
    service.add_federation_txnid(&origin, &a, accepted("$a"));
    service.add_federation_txnid(&origin, &b, accepted("$b"));
    for i in 0..5 {
        assert!(service.existing_federation_txnid(&origin, &txn_id(&format!("no-{i}"))).is_none());
    }
    assert!(service.existing_federation_txnid(&origin, &a).is_some());
    assert!(service.existing_federation_txnid(&origin, &b).is_some());
}

#[test]
fn answer_is_gone_after_as_many_others_as_the_capacity() {
    let mut service = Service::with_federation_cache_capacity(2);
    let origin = origin("example.com");
    let (a, b, c) = (txn_id("a"), txn_id("b"), txn_id("c"));
    service.add_federation_txnid(&origin, &b, accepted("$b"));
    service.add_federation_txnid(&origin, &a, accepted("$a"));
    assert!(service.existing_federation_txnid(&origin, &b).is_some());
    service.add_federation_txnid(&origin, &c, accepted("$c"));
    assert!(service.existing_federation_txnid(&origin, &a).is_none());

    // Only what was added since counts after a clear.
    service.clear_cache();
    assert!(service.existing_federation_txnid(&origin, &b).is_none());
    service.add_federation_txnid(&origin, &a, accepted("$again"));
    assert_eq!(
        event_ids(service.existing_federation_txnid(&origin, &a)),
        Some(vec!["$again".to_owned()])
    );
}

#[test]
fn lock_given_back_can_be_taken_again_any_number_of_times() {
    let mut service = Service::with_federation_cache_capacity(1);
    let origin = origin("example.com");
    let txn = txn_id("txn");
    for _ in 0..3 {
        let ticket = service.lock_federation_txnid(&origin, &txn);
        assert_eq!(ticket, 0);
        assert!(service.holds_federation_txnid(ticket));
        service.unlock_federation_txnid(ticket);
        assert!(!service.holds_federation_txnid(ticket));
    }
}

#[test]
fn ticket_is_the_smallest_one_that_is_not_in_use() {
    let mut service = Service::with_federation_cache_capacity(1);
    let origin = origin("example.com");
    let (a, b) = (txn_id("a"), txn_id("b"));
    assert_eq!(service.lock_federation_txnid(&origin, &a), 0);
    assert_eq!(service.lock_federation_txnid(&origin, &a), 1);
    assert_eq!(service.lock_federation_txnid(&origin, &b), 2);
    service.unlock_federation_txnid(0);
    assert!(service.holds_federation_txnid(1));

    // The ticket comes back, but its place is the last one.
    assert_eq!(service.lock_federation_txnid(&origin, &a), 0);
    assert!(service.holds_federation_txnid(1));
    assert!(!service.holds_federation_txnid(0));
    assert!(service.holds_federation_txnid(2));
}

#[test]
fn locking_changes_nothing_of_the_cache() {
    let mut service = Service::with_federation_cache_capacity(2);
    let origin = origin("example.com");
    let (a, b, c) = (txn_id("a"), txn_id("b"), txn_id("c"));
    service.add_federation_txnid(&origin, &a, accepted("$a"));
    service.add_federation_txnid(&origin, &b, accepted("$b"));
    let held = service.lock_federation_txnid(&origin, &a);
    let _ = service.lock_federation_txnid(&origin, &c);
    assert_eq!(usage(&service), "federation_txnid_cache: 2/2\n");
    assert!(service.existing_federation_txnid(&origin, &c).is_none());
    service.unlock_federation_txnid(held);

    // The lock did not refresh the entry.
    service.add_federation_txnid(&origin, &c, accepted("$c"));
    assert!(service.existing_federation_txnid(&origin, &a).is_none());
    assert!(service.existing_federation_txnid(&origin, &b).is_some());
}
