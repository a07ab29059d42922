//! What the service remembers, and what each operation makes of it.

use vstd::prelude::*;

use crate::cache::Answer;
use crate::database::{Read, Write};
use crate::entries::{found, inserted, keys_distinct, refreshed, without};
use crate::keys::{federation_key, user_device_key};
use crate::locks::{first_unused, is_holder, Queue};

verus! {

/// What the service remembers.
#[verifier::ext_equal]
pub struct State {
    /// The name of the database map of answered client requests, where the map is open.
    pub map: Option<Seq<char>>,
    /// The federation transactions whose answers are cached, by key, the least recently used one
    /// first.
    pub answers: Seq<(Seq<u8>, Answer)>,
    /// How many answers are cached at most.
    pub capacity: nat,
    /// The requests for locks on federation transactions, in the order of arrival.
    pub locks: Queue,
}

impl State {
    /// The state at the start.
    pub open spec fn initial(map: Option<Seq<char>>, capacity: nat) -> State {
        State { map, answers: Seq::empty(), capacity, locks: Queue::empty() }
    }

    /// No transaction is cached twice, the cache is within its capacity, and no two lock
    /// requests have the same ticket.
    pub open spec fn wf(self) -> bool {
        &&& keys_distinct(self.answers)
        &&& self.answers.len() <= self.capacity
        &&& keys_distinct(self.locks)
    }

    /// The cached answer to a federation transaction.
    pub open spec fn answer_to(self, origin: Seq<char>, txn_id: Seq<char>) -> Option<Answer> {
        found(self.answers, federation_key(origin, txn_id))
    }

    /// After the answer to a federation transaction was looked up: where there is one, it is the
    /// most recently used one.
    pub open spec fn after_lookup(self, origin: Seq<char>, txn_id: Seq<char>) -> State {
        State { answers: refreshed(self.answers, federation_key(origin, txn_id)), ..self }
    }

    /// After an answer to a federation transaction was cached: it is the most recently used one,
    /// and the least recently used one went if there were more than the capacity.
    pub open spec fn after_add(
        self,
        origin: Seq<char>,
        txn_id: Seq<char>,
        answer: Answer,
    ) -> State {
        State {
            answers: inserted(
                self.answers,
                self.capacity,
                federation_key(origin, txn_id),
                answer,
            ),
            ..self
        }
    }

    /// After all cached answers were dropped.
    pub open spec fn after_clear(self) -> State {
        State { answers: Seq::empty(), ..self }
    }

    /// The ticket of the next lock request.
    pub open spec fn next_ticket(self) -> nat {
        first_unused(self.locks)
    }

    /// After the lock on a federation transaction was asked for.
    pub open spec fn after_lock(self, origin: Seq<char>, txn_id: Seq<char>) -> State {
        State {
            locks: self.locks.push((self.next_ticket(), federation_key(origin, txn_id))),
            ..self
        }
    }

    /// After the request with this ticket was given up.
    pub open spec fn after_unlock(self, ticket: nat) -> State {
        State { locks: without(self.locks, ticket), ..self }
    }

    /// Whether the request with this ticket has its lock.
    pub open spec fn has_lock(self, ticket: nat) -> bool {
        is_holder(self.locks, ticket)
    }

    /// What is to be written for the answer to a client request, where the map is open.
    pub open spec fn write_for(
        self,
        user: Seq<char>,
        device: Option<Seq<char>>,
        txn_id: Seq<char>,
        data: Seq<u8>,
    ) -> Write {
        Write { map: self.map.unwrap(), key: user_device_key(user, device, txn_id), value: data }
    }

    /// Where the answer to a client request is to be read, where the map is open.
    pub open spec fn read_for(
        self,
        user: Seq<char>,
        device: Option<Seq<char>>,
        txn_id: Seq<char>,
    ) -> Read {
        Read { map: self.map.unwrap(), key: user_device_key(user, device, txn_id) }
    }
}

} // verus!
