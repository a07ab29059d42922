//! What holds of the service across its operations.

use vstd::prelude::*;

use crate::cache::Answer;
use crate::database::{entries_of, Database};
use crate::entries::{
    found, holds_key, inserted, is_at, lemma_found_at, lemma_inserted, lemma_key_not_held,
    lemma_pushed, lemma_refreshed, lemma_without, position, without,
};
use crate::keys::{
    device_text, federation_key, law_federation_keys_are_distinct,
    law_user_device_keys_are_distinct, user_device_key,
};
use crate::locks::{is_behind, lemma_first_unused, Queue};
use crate::state::State;

verus! {

/// Every operation keeps the state well-formed: no transaction is cached twice, the cache stays
/// within its capacity, and no two lock requests get the same ticket.
pub proof fn law_operations_keep_the_state_well_formed(
    s: State,
    origin: Seq<char>,
    txn_id: Seq<char>,
    answer: Answer,
    ticket: nat,
)
    requires
        s.wf(),
    ensures
        s.after_lookup(origin, txn_id).wf(),
        s.after_add(origin, txn_id, answer).wf(),
        s.after_clear().wf(),
        s.after_lock(origin, txn_id).wf(),
        s.after_unlock(ticket).wf(),
{
    let key = federation_key(origin, txn_id);
    lemma_refreshed(s.answers, key);
    lemma_inserted(s.answers, s.capacity, key, answer);
    lemma_first_unused(s.locks);
    lemma_pushed(s.locks, s.next_ticket(), key);
    lemma_without(s.locks, ticket);
}

/// A service starts with nothing: the map that it was given, no cached answer, the capacity that
/// it was given, no lock request; no transaction has an answer, and no ticket a lock.
pub proof fn law_service_starts_with_nothing(
    map: Option<Seq<char>>,
    capacity: nat,
    origin: Seq<char>,
    txn_id: Seq<char>,
    ticket: nat,
)
    ensures
        State::initial(map, capacity).map == map,
        State::initial(map, capacity).answers.len() == 0,
        State::initial(map, capacity).capacity == capacity,
        State::initial(map, capacity).locks.len() == 0,
        State::initial(map, capacity).answer_to(origin, txn_id) is None,
        !State::initial(map, capacity).asks_for(ticket, origin, txn_id),
        !State::initial(map, capacity).has_lock(ticket),
{
}

/// An answer that was cached is found: the transaction is not processed a second time. (A cache
/// of capacity zero keeps nothing.)
pub proof fn law_added_answer_is_found(
    s: State,
    origin: Seq<char>,
    txn_id: Seq<char>,
    answer: Answer,
)
    requires
        s.wf(),
        s.capacity > 0,
    ensures
        s.after_add(origin, txn_id, answer).answer_to(origin, txn_id) == Some(answer),
{
    lemma_inserted(s.answers, s.capacity, federation_key(origin, txn_id), answer);
}

/// A cache of capacity zero stays empty.
pub proof fn law_capacity_zero_caches_nothing(
    s: State,
    origin: Seq<char>,
    txn_id: Seq<char>,
    answer: Answer,
)
    requires
        s.wf(),
        s.capacity == 0,
    ensures
        s.after_add(origin, txn_id, answer) == s,
        s.answer_to(origin, txn_id) is None,
{
    lemma_inserted(s.answers, s.capacity, federation_key(origin, txn_id), answer);
    assert(s.after_add(origin, txn_id, answer).answers =~= s.answers);
}

/// Caching an answer leaves the answers to all other transactions as they are, but for one: where
/// the cache is full and the transaction is a new one, the least recently used answer goes.
pub proof fn law_only_the_least_recently_used_answer_is_evicted(
    s: State,
    origin: Seq<char>,
    txn_id: Seq<char>,
    answer: Answer,
    other_origin: Seq<char>,
    other_txn_id: Seq<char>,
)
    requires
        s.wf(),
        other_origin != origin || other_txn_id != txn_id,
    ensures
        s.after_add(origin, txn_id, answer).answer_to(other_origin, other_txn_id) == if 0
            < s.answers.len() == s.capacity && s.answer_to(origin, txn_id) is None
            && s.answers.first().0 == federation_key(other_origin, other_txn_id) {
            None
        } else {
            s.answer_to(other_origin, other_txn_id)
        },
{
    let key = federation_key(origin, txn_id);
    let other = federation_key(other_origin, other_txn_id);
    law_federation_keys_are_distinct(origin, txn_id, other_origin, other_txn_id);
    lemma_inserted(s.answers, s.capacity, key, answer);
    assert(found(s.after_add(origin, txn_id, answer).answers, other) == found(
        inserted(s.answers, s.capacity, key, answer),
        other,
    ));
}

/// Looking an answer up changes no answer; it only makes the one that was found the most recently
/// used one.
pub proof fn law_lookup_changes_no_answer(
    s: State,
    origin: Seq<char>,
    txn_id: Seq<char>,
    any_origin: Seq<char>,
    any_txn_id: Seq<char>,
)
    requires
        s.wf(),
    ensures
        s.after_lookup(origin, txn_id).answer_to(any_origin, any_txn_id) == s.answer_to(
            any_origin,
            any_txn_id,
        ),
        s.after_lookup(origin, txn_id).answers.len() == s.answers.len(),
        s.answer_to(origin, txn_id) matches Some(answer) ==> s.after_lookup(
            origin,
            txn_id,
        ).answers.last() == (federation_key(origin, txn_id), answer),
{
    lemma_refreshed(s.answers, federation_key(origin, txn_id));
}

/// After the cache was cleared no answer is found; the capacity, the locks and the database map
/// are what they were.
pub proof fn law_clear_drops_every_answer(s: State, origin: Seq<char>, txn_id: Seq<char>)
    ensures
        s.after_clear().answer_to(origin, txn_id) is None,
        s.after_clear().answers.len() == 0,
        s.after_clear().capacity == s.capacity,
        s.after_clear().locks == s.locks,
        s.after_clear().map == s.map,
{
}

/// What is done to the cache changes nothing of the locks and of the database map, and what is done
/// to the locks changes nothing of the cache; the capacity never changes.
pub proof fn law_cache_and_locks_are_independent(
    s: State,
    origin: Seq<char>,
    txn_id: Seq<char>,
    answer: Answer,
    ticket: nat,
    any_origin: Seq<char>,
    any_txn_id: Seq<char>,
    any_ticket: nat,
)
    ensures
        ({
            let cache_used = set![
                s.after_lookup(origin, txn_id),
                s.after_add(origin, txn_id, answer),
                s.after_clear(),
            ];
            forall|after: State| #[trigger]
                cache_used.contains(after) ==> {
                    &&& after.has_lock(any_ticket) == s.has_lock(any_ticket)
                    &&& after.locks == s.locks
                    &&& after.map == s.map
                    &&& after.capacity == s.capacity
                }
        }),
        ({
            let locks_used = set![s.after_lock(origin, txn_id), s.after_unlock(ticket)];
            forall|after: State| #[trigger]
                locks_used.contains(after) ==> {
                    &&& after.answer_to(any_origin, any_txn_id) == s.answer_to(
                        any_origin,
                        any_txn_id,
                    )
                    &&& after.answers == s.answers
                    &&& after.map == s.map
                    &&& after.capacity == s.capacity
                }
        }),
{
}

/// What was recorded for a client request is what is read back for it: after the write, the read
/// for the same user, device and transaction answers with the data, and every other read answers
/// as before. A missing device counts as one with an empty identifier.
pub proof fn law_recorded_answer_is_read_back(
    s: State,
    db: Database,
    user: Seq<char>,
    device: Option<Seq<char>>,
    txn_id: Seq<char>,
    data: Seq<u8>,
    any_user: Seq<char>,
    any_device: Option<Seq<char>>,
    any_txn_id: Seq<char>,
)
    requires
        s.map is Some,
    ensures
        s.read_for(any_user, any_device, any_txn_id).answer(
            s.write_for(user, device, txn_id, data).applied(db),
        ) == if any_user == user && device_text(any_device) == device_text(device) && any_txn_id
            == txn_id {
            Some(data)
        } else {
            s.read_for(any_user, any_device, any_txn_id).answer(db)
        },
{
    law_user_device_keys_are_distinct(user, device, txn_id, any_user, any_device, any_txn_id);
}

/// A client request of which nothing was recorded is a new one: with no entry in the map, no
/// answer is read.
pub proof fn law_request_without_entry_is_new(
    s: State,
    db: Database,
    user: Seq<char>,
    device: Option<Seq<char>>,
    txn_id: Seq<char>,
)
    requires
        s.map is Some,
    ensures
        s.read_for(user, device, txn_id).answer(db) is None <==> !entries_of(
            db,
            s.map.unwrap(),
        ).contains_key(user_device_key(user, device, txn_id)),
{
}

impl State {
    /// The request with this ticket asks for the lock on a transaction.
    pub open spec fn asks_for(self, ticket: nat, origin: Seq<char>, txn_id: Seq<char>) -> bool {
        found(self.locks, ticket) == Some(federation_key(origin, txn_id))
    }

    /// Where the request with this ticket stands among all requests.
    pub open spec fn place(self, ticket: nat) -> int {
        position(self.locks, ticket)
    }
}

/// Where a request stands.
proof fn lemma_place(s: State, ticket: nat, origin: Seq<char>, txn_id: Seq<char>) -> (place: int)
    requires
        s.wf(),
        s.asks_for(ticket, origin, txn_id),
    ensures
        0 <= place < s.locks.len(),
        s.locks[place] == (ticket, federation_key(origin, txn_id)),
        position(s.locks, ticket) == place,
        s.has_lock(ticket) == !is_behind(s.locks, place),
{
    let place = position(s.locks, ticket);
    assert(is_at(s.locks, place, ticket));
    place
}

/// The next lock request gets the smallest ticket that no request has.
pub proof fn law_ticket_is_the_smallest_unused(s: State, smaller: nat)
    ensures
        forall|i: int| 0 <= i < s.locks.len() ==> (#[trigger] s.locks[i]).0 != s.next_ticket(),
        smaller < s.next_ticket() ==> exists|i: int|
            0 <= i < s.locks.len() && (#[trigger] s.locks[i]).0 == smaller,
{
    lemma_first_unused(s.locks);
    lemma_key_not_held(s.locks, s.next_ticket());
    if smaller < s.next_ticket() {
        assert(holds_key(s.locks, smaller));
        assert(is_at(s.locks, position(s.locks, smaller), smaller));
    }
}

/// A lock request adds one request and no other: afterwards a ticket asks for a transaction exactly
/// where it did before, or where it is the new ticket, which nobody had, and the transaction the
/// one that was asked for.
pub proof fn law_lock_request_adds_one_request(
    s: State,
    origin: Seq<char>,
    txn_id: Seq<char>,
    any: nat,
    any_origin: Seq<char>,
    any_txn_id: Seq<char>,
)
    requires
        s.wf(),
    ensures
        s.after_lock(origin, txn_id).asks_for(any, any_origin, any_txn_id) <==> s.asks_for(
            any,
            any_origin,
            any_txn_id,
        ) || (any == s.next_ticket() && any_origin == origin && any_txn_id == txn_id),
        !s.asks_for(s.next_ticket(), any_origin, any_txn_id),
        s.after_lock(origin, txn_id).locks.len() == s.locks.len() + 1,
{
    let key = federation_key(origin, txn_id);
    lemma_first_unused(s.locks);
    lemma_pushed(s.locks, s.next_ticket(), key);
    law_federation_keys_are_distinct(origin, txn_id, any_origin, any_txn_id);
    if any != s.next_ticket() {
        assert(found(s.locks.push((s.next_ticket(), key)), any) == found(s.locks, any));
    }
}

/// A request that is given up is gone, whether it had the lock or waited for it, and every other
/// request stays: afterwards a ticket asks for a transaction exactly where it did before and is not
/// the one that was given up.
pub proof fn law_request_given_up_is_gone(
    s: State,
    ticket: nat,
    any: nat,
    any_origin: Seq<char>,
    any_txn_id: Seq<char>,
)
    requires
        s.wf(),
    ensures
        s.after_unlock(ticket).asks_for(any, any_origin, any_txn_id) <==> any != ticket
            && s.asks_for(any, any_origin, any_txn_id),
        forall|i: int|
            0 <= i < s.after_unlock(ticket).locks.len() ==> (#[trigger] s.after_unlock(
                ticket,
            ).locks[i]).0 != ticket,
        s.after_unlock(ticket).locks.len() == s.locks.len() - if exists|i: int|
            0 <= i < s.locks.len() && (#[trigger] s.locks[i]).0 == ticket {
            1int
        } else {
            0int
        },
{
    lemma_without(s.locks, ticket);
    lemma_key_not_held(without(s.locks, ticket), ticket);
    if any != ticket {
        assert(found(without(s.locks, ticket), any) == found(s.locks, any));
    }
    if holds_key(s.locks, ticket) {
        assert(is_at(s.locks, position(s.locks, ticket), ticket));
    } else {
        lemma_key_not_held(s.locks, ticket);
    }
}

/// At most one request at a time has the lock on a transaction.
pub proof fn law_one_holder_at_a_time(
    s: State,
    origin: Seq<char>,
    txn_id: Seq<char>,
    a: nat,
    b: nat,
)
    requires
        s.wf(),
        s.asks_for(a, origin, txn_id),
        s.asks_for(b, origin, txn_id),
        s.has_lock(a),
        s.has_lock(b),
    ensures
        a == b,
{
    let i = lemma_place(s, a, origin, txn_id);
    let j = lemma_place(s, b, origin, txn_id);
    if i < j {
        assert(s.locks[i].1 == s.locks[j].1);
    } else if j < i {
        assert(s.locks[j].1 == s.locks[i].1);
    }
}

/// As long as anyone asks for the lock on a transaction, someone has it: the earliest of them.
pub proof fn law_a_lock_asked_for_is_held(
    s: State,
    origin: Seq<char>,
    txn_id: Seq<char>,
    ticket: nat,
) -> (holder: nat)
    requires
        s.wf(),
        s.asks_for(ticket, origin, txn_id),
    ensures
        s.asks_for(holder, origin, txn_id),
        s.has_lock(holder),
        s.place(holder) <= s.place(ticket),
    decreases position(s.locks, ticket),
{
    let i = lemma_place(s, ticket, origin, txn_id);
    if is_behind(s.locks, i) {
        let j = choose|j: int| 0 <= j < i && (#[trigger] s.locks[j]).1 == s.locks[i].1;
        lemma_found_at(s.locks, j);
        law_a_lock_asked_for_is_held(s, origin, txn_id, s.locks[j].0)
    } else {
        ticket
    }
}

/// A new request has the lock at once if and only if nobody else asks for it, and changes nothing
/// for the requests that were there.
pub proof fn law_new_request_waits_for_the_earlier_ones(
    s: State,
    origin: Seq<char>,
    txn_id: Seq<char>,
    other: nat,
)
    requires
        s.wf(),
        other != s.next_ticket(),
    ensures
        s.after_lock(origin, txn_id).asks_for(s.next_ticket(), origin, txn_id),
        s.after_lock(origin, txn_id).has_lock(s.next_ticket()) <==> (forall|ticket: nat|
            !s.asks_for(ticket, origin, txn_id)),
        s.after_lock(origin, txn_id).has_lock(other) == s.has_lock(other),
{
    let key = federation_key(origin, txn_id);
    let after = s.after_lock(origin, txn_id);
    let new = s.next_ticket();
    let end = s.locks.len() as int;
    lemma_first_unused(s.locks);
    lemma_pushed(s.locks, new, key);
    lemma_found_at(after.locks, end);
    if is_behind(after.locks, end) {
        let j = choose|j: int| 0 <= j < end && (#[trigger] after.locks[j]).1 == after.locks[end].1;
        assert(after.locks[j] == s.locks[j]);
        lemma_found_at(s.locks, j);
        assert(s.asks_for(s.locks[j].0, origin, txn_id));
    }
    if exists|ticket: nat| s.asks_for(ticket, origin, txn_id) {
        let ticket = choose|ticket: nat| s.asks_for(ticket, origin, txn_id);
        let i = lemma_place(s, ticket, origin, txn_id);
        assert(after.locks[i] == s.locks[i]);
        assert(is_behind(after.locks, end));
    }
    if holds_key(s.locks, other) {
        let i = position(s.locks, other);
        assert(is_at(s.locks, i, other));
        lemma_found_at(s.locks, i);
        assert(after.locks[i] == s.locks[i]);
        lemma_found_at(after.locks, i);
        lemma_same_behind(s.locks, after.locks, i);
    } else {
        assert(found(after.locks, other) == found(s.locks, other));
    }
}

/// Whether a request waits depends on the requests up to it alone.
proof fn lemma_same_behind(a: Queue, b: Queue, i: int)
    requires
        0 <= i < a.len(),
        0 <= i < b.len(),
        forall|j: int| 0 <= j <= i ==> a[j] == b[j],
    ensures
        is_behind(a, i) == is_behind(b, i),
{
    if is_behind(a, i) {
        let j = choose|j: int| 0 <= j < i && (#[trigger] a[j]).1 == a[i].1;
        assert(b[j].1 == b[i].1);
    }
    if is_behind(b, i) {
        let j = choose|j: int| 0 <= j < i && (#[trigger] b[j]).1 == b[i].1;
        assert(a[j].1 == a[i].1);
    }
}

/// When a request is given up, it has no lock any more; of the other requests, those for other
/// transactions are as before, those that had a lock keep it, and the one that comes next for the
/// same transaction gets it.
pub proof fn law_unlock_hands_the_lock_on(
    s: State,
    released: nat,
    origin: Seq<char>,
    txn_id: Seq<char>,
    other: nat,
)
    requires
        s.wf(),
        s.asks_for(other, origin, txn_id),
        other != released,
    ensures
        !s.after_unlock(released).has_lock(released),
        s.after_unlock(released).asks_for(other, origin, txn_id),
        s.has_lock(other) ==> s.after_unlock(released).has_lock(other),
        !s.asks_for(released, origin, txn_id) ==> s.after_unlock(released).has_lock(other)
            == s.has_lock(other),
        (forall|earlier: nat|
            s.place(earlier) < s.place(other) && s.asks_for(earlier, origin, txn_id) ==> earlier
                == released)
            ==> s.after_unlock(released).has_lock(other),
{
    let after = s.after_unlock(released);
    lemma_without(s.locks, released);
    assert(found(without(s.locks, released), other) == found(s.locks, other));
    let i = lemma_place(s, other, origin, txn_id);
    let k = lemma_place(after, other, origin, txn_id);
    if holds_key(s.locks, released) {
        let p = position(s.locks, released);
        assert(is_at(s.locks, p, released));
        s.locks.remove_ensures(p);
        let at = if p < i { i - 1 } else { i };
        assert(after.locks[at] == s.locks[i]);
        lemma_found_at(after.locks, at);
        assert(k == at);
        if is_behind(after.locks, k) {
            let j = choose|j: int|
                0 <= j < k && (#[trigger] after.locks[j]).1 == after.locks[k].1;
            let from = if j < p { j } else { j + 1 };
            assert(after.locks[j] == s.locks[from]);
            assert(from < i && from != p);
            assert(s.locks[from].1 == s.locks[i].1);
            assert(is_behind(s.locks, i));
            lemma_found_at(s.locks, from);
            let earlier = s.locks[from].0;
            assert(s.asks_for(earlier, origin, txn_id));
            assert(s.place(earlier) < s.place(other));
            assert(earlier != released) by {
                lemma_found_at(s.locks, p);
            }
        }
        if !s.asks_for(released, origin, txn_id) && is_behind(s.locks, i) {
            let j = choose|j: int| 0 <= j < i && (#[trigger] s.locks[j]).1 == s.locks[i].1;
            lemma_found_at(s.locks, p);
            assert(j != p);
            let to = if j < p { j } else { j - 1 };
            assert(after.locks[to] == s.locks[j]);
            assert(to < k);
            assert(is_behind(after.locks, k));
        }
    } else {
        if is_behind(s.locks, i) {
            let j = choose|j: int| 0 <= j < i && (#[trigger] s.locks[j]).1 == s.locks[i].1;
            lemma_found_at(s.locks, j);
            assert(s.asks_for(s.locks[j].0, origin, txn_id));
            assert(s.locks[j].0 != released);
        }
    }
}

/// Two requests in a row have different tickets.
proof fn lemma_tickets_in_a_row_differ(s: State, origin: Seq<char>, txn_id: Seq<char>)
    ensures
        s.next_ticket() != s.after_lock(origin, txn_id).next_ticket(),
{
    let one = s.after_lock(origin, txn_id);
    lemma_first_unused(one.locks);
    assert(is_at(one.locks, s.locks.len() as int, s.next_ticket()));
}

/// Two requests for the lock on the same transaction are served one after the other: the second
/// one has it only after the first one was given up.
pub proof fn law_same_transaction_is_serialized(s: State, origin: Seq<char>, txn_id: Seq<char>)
    requires
        s.wf(),
        forall|ticket: nat| !s.asks_for(ticket, origin, txn_id),
    ensures
        ({
            let first = s.next_ticket();
            let one = s.after_lock(origin, txn_id);
            let second = one.next_ticket();
            let two = one.after_lock(origin, txn_id);
            &&& one.has_lock(first)
            &&& two.has_lock(first)
            &&& !two.has_lock(second)
            &&& two.after_unlock(first).has_lock(second)
            &&& !two.after_unlock(first).has_lock(first)
        }),
{
    let first = s.next_ticket();
    let one = s.after_lock(origin, txn_id);
    let second = one.next_ticket();
    let two = one.after_lock(origin, txn_id);
    law_operations_keep_the_state_well_formed(s, origin, txn_id, Seq::empty(), first);
    law_operations_keep_the_state_well_formed(one, origin, txn_id, Seq::empty(), first);
    lemma_tickets_in_a_row_differ(s, origin, txn_id);
    law_new_request_waits_for_the_earlier_ones(s, origin, txn_id, second);
    law_new_request_waits_for_the_earlier_ones(one, origin, txn_id, first);
    assert forall|earlier: nat|
        two.place(earlier) < two.place(second) && two.asks_for(
            earlier,
            origin,
            txn_id,
        ) implies earlier == first by {
        let i = lemma_place(two, earlier, origin, txn_id);
        if i < s.locks.len() {
                assert(two.locks[i] == s.locks[i]);
            lemma_found_at(s.locks, i);
            assert(s.asks_for(earlier, origin, txn_id));
        }
    }
    law_unlock_hands_the_lock_on(two, first, origin, txn_id, second);
}

/// Requests for the locks on two different transactions do not wait for one another.
pub proof fn law_different_transactions_do_not_wait(
    s: State,
    origin_a: Seq<char>,
    txn_a: Seq<char>,
    origin_b: Seq<char>,
    txn_b: Seq<char>,
)
    requires
        s.wf(),
        origin_a != origin_b || txn_a != txn_b,
        forall|ticket: nat| !s.asks_for(ticket, origin_b, txn_b),
    ensures
        s.after_lock(origin_a, txn_a).after_lock(origin_b, txn_b).has_lock(
            s.after_lock(origin_a, txn_a).next_ticket(),
        ),
{
    let first = s.next_ticket();
    let one = s.after_lock(origin_a, txn_a);
    law_federation_keys_are_distinct(origin_a, txn_a, origin_b, txn_b);
    law_operations_keep_the_state_well_formed(s, origin_a, txn_a, Seq::empty(), first);
    assert forall|ticket: nat| !one.asks_for(ticket, origin_b, txn_b) by {
        if one.asks_for(ticket, origin_b, txn_b) {
            let i = lemma_place(one, ticket, origin_b, txn_b);
            assert(i < s.locks.len());
                assert(one.locks[i] == s.locks[i]);
            lemma_found_at(s.locks, i);
            assert(s.asks_for(ticket, origin_b, txn_b));
        }
    }
    lemma_tickets_in_a_row_differ(s, origin_a, txn_a);
    law_new_request_waits_for_the_earlier_ones(one, origin_b, txn_b, first);
}

/// A lock that was given back can be taken again: where nobody else asked for it, the next request
/// has it at once.
pub proof fn law_lock_given_back_can_be_taken_again(
    s: State,
    origin: Seq<char>,
    txn_id: Seq<char>,
    ticket: nat,
)
    requires
        s.wf(),
        forall|other: nat| s.asks_for(other, origin, txn_id) ==> other == ticket,
    ensures
        s.after_unlock(ticket).after_lock(origin, txn_id).has_lock(
            s.after_unlock(ticket).next_ticket(),
        ),
{
    let free = s.after_unlock(ticket);
    law_operations_keep_the_state_well_formed(s, origin, txn_id, Seq::empty(), ticket);
    lemma_without(s.locks, ticket);
    assert forall|other: nat| !free.asks_for(other, origin, txn_id) by {
        if other != ticket {
            assert(found(without(s.locks, ticket), other) == found(s.locks, other));
            assert(!s.asks_for(other, origin, txn_id));
        }
    }
    law_new_request_waits_for_the_earlier_ones(
        free,
        origin,
        txn_id,
        free.next_ticket() + 1,
    );
}

} // verus!
