//! The service: what was answered to client requests and to federation transactions.

use vstd::prelude::*;
use vstd::string::StringExecFns;
use vstd::utf8::encode_utf8;

use crate::cache::{
    cache_capacity, cached, capacity_of, clear_entries, entry_count, get_refreshed, insert_newest,
    new_cache, FederationTxnidCache,
};
use crate::database::{Insert, Query};
use crate::entries::{lemma_inserted, lemma_key_not_held, lemma_refreshed, lemma_without};
use crate::ids::{DeviceId, ServerName, TransactionId, UserId};
use crate::keys::{device_view, federation_txnid_key, userdevicetxnid_key};
use crate::laws::law_ticket_is_the_smallest_unused;
use crate::locks::LockTable;
use crate::response::Response;
use crate::state::State;
use crate::text::{append_decimal, decimal};

verus! {

/// What was answered to client requests, which the database keeps, and to federation
/// transactions, which are kept in memory.
pub struct Service {
    db: Data,
    mem: Memory,
}

/// The maps of the database that the service works on.
struct Data {
    /// The name of the map of answered client requests, where it is open.
    userdevicetxnid_response: Option<String>,
}

/// What is kept in memory.
struct Memory {
    /// The answers to federation transactions.
    federation_txnid_response: FederationTxnidCache,
    /// The locks on federation transactions.
    federation_txnid_mutex: LockTable,
}

impl View for Service {
    type V = State;

    closed spec fn view(&self) -> State {
        State {
            map: match self.db.userdevicetxnid_response {
                Some(name) => Some(name@),
                None => None,
            },
            answers: cached(self.mem.federation_txnid_response),
            capacity: cache_capacity(self.mem.federation_txnid_response),
            locks: self.mem.federation_txnid_mutex@,
        }
    }
}

impl Service {
    /// The service on an open database, with a cache of the given size.
    pub fn build(cache_size: usize) -> (service: Service)
        ensures
            service@ == State::initial(Some("userdevicetxnid_response"@), cache_size as nat),
            service@.map == Some("userdevicetxnid_response"@),
            service@.answers.len() == 0,
            service@.capacity == cache_size,
            service@.locks.len() == 0,
            service@.wf(),
    {
        Service {
            db: Data { userdevicetxnid_response: Some("userdevicetxnid_response".to_owned()) },
            mem: Memory {
                federation_txnid_response: new_cache(cache_size),
                federation_txnid_mutex: LockTable::new(),
            },
        }
    }

    /// The service without a database, with a cache of the given size.
    pub fn with_federation_cache_capacity(capacity: usize) -> (service: Service)
        ensures
            service@ == State::initial(None, capacity as nat),
            service@.map is None,
            service@.answers.len() == 0,
            service@.capacity == capacity,
            service@.locks.len() == 0,
            service@.wf(),
    {
        Service {
            db: Data { userdevicetxnid_response: None },
            mem: Memory {
                federation_txnid_response: new_cache(capacity),
                federation_txnid_mutex: LockTable::new(),
            },
        }
    }

    /// Drops all cached answers to federation transactions.
    pub fn clear_cache(&mut self)
        requires
            old(self)@.wf(),
        ensures
            final(self)@ == old(self)@.after_clear(),
            final(self)@.answers.len() == 0,
            final(self)@.capacity == old(self)@.capacity,
            final(self)@.locks == old(self)@.locks,
            final(self)@.map == old(self)@.map,
            final(self)@.wf(),
    {
        clear_entries(&mut self.mem.federation_txnid_response);
    }

    /// Appends a line with the number of cached answers and the capacity of the cache.
    pub fn memory_usage(&self, out: &mut String)
        ensures
            final(out)@ == old(out)@ + "federation_txnid_cache: "@ + decimal(self@.answers.len())
                + "/"@ + decimal(self@.capacity) + "\n"@,
    {
        out.append("federation_txnid_cache: ");
        append_decimal(out, entry_count(&self.mem.federation_txnid_response));
        out.append("/");
        append_decimal(out, capacity_of(&self.mem.federation_txnid_response));
        out.append("\n");
    }

    /// Records the answer to a client request: orders it into the database.
    pub fn add_txnid<'m, 'v>(
        &'m self,
        user_id: &UserId,
        device_id: Option<&DeviceId>,
        txn_id: &TransactionId,
        data: &'v [u8],
    ) -> (insert: Insert<'m, 'v>)
        requires
            self@.map is Some,
        ensures
            insert@ == self@.write_for(user_id@, device_view(device_id), txn_id@, data@),
            self@.map == Some(insert.map@),
            insert.key@ == encode_utf8(user_id@) + seq![0xFFu8] + (match device_id {
                Some(device) => encode_utf8(device@),
                None => Seq::empty(),
            }) + seq![0xFFu8] + encode_utf8(txn_id@),
            insert.value@ == data@,
    {
        let key = userdevicetxnid_key(user_id, device_id, txn_id);
        let map = self.db.userdevicetxnid_response.as_ref().expect(
            "userdevicetxnid_response map is initialized",
        );
        Insert { map: map.as_str(), key, value: data }
    }

    /// Orders the recorded answer to a client request from the database. If there is no entry,
    /// the request is a new one.
    pub fn existing_txnid<'m>(
        &'m self,
        user_id: &UserId,
        device_id: Option<&DeviceId>,
        txn_id: &TransactionId,
    ) -> (query: Query<'m>)
        requires
            self@.map is Some,
        ensures
            query@ == self@.read_for(user_id@, device_view(device_id), txn_id@),
            self@.map == Some(query.map@),
            query.key@ == encode_utf8(user_id@) + seq![0xFFu8] + (match device_id {
                Some(device) => encode_utf8(device@),
                None => Seq::empty(),
            }) + seq![0xFFu8] + encode_utf8(txn_id@),
    {
        let key = userdevicetxnid_key(user_id, device_id, txn_id);
        let map = self.db.userdevicetxnid_response.as_ref().expect(
            "userdevicetxnid_response map is initialized",
        );
        Query { map: map.as_str(), key }
    }

    /// Asks for the lock on a federation transaction. The ticket tells whether and when the lock
    /// is held, and gives it back; after that, another request can get the same ticket.
    #[must_use]
    pub fn lock_federation_txnid(&mut self, origin: &ServerName, txn_id: &TransactionId) -> (ticket:
        usize)
        requires
            old(self)@.wf(),
        ensures
            ticket == old(self)@.next_ticket(),
            final(self)@ == old(self)@.after_lock(origin@, txn_id@),
            final(self)@.locks == old(self)@.locks.push(
                (
                    ticket as nat,
                    encode_utf8(origin@) + seq![0xFFu8] + encode_utf8(txn_id@),
                ),
            ),
            forall|i: int|
                0 <= i < old(self)@.locks.len() ==> (#[trigger] old(self)@.locks[i]).0 != ticket,
            final(self)@.answers == old(self)@.answers,
            final(self)@.capacity == old(self)@.capacity,
            final(self)@.map == old(self)@.map,
            final(self)@.wf(),
    {
        let key = federation_txnid_key(origin, txn_id);
        proof {
            law_ticket_is_the_smallest_unused(self@, 0);
        }
        self.mem.federation_txnid_mutex.request(key)
    }

    /// Whether the request with this ticket has its lock.
    pub fn holds_federation_txnid(&self, ticket: usize) -> (holds: bool)
        requires
            self@.wf(),
        ensures
            holds == self@.has_lock(ticket as nat),
    {
        self.mem.federation_txnid_mutex.holds(ticket)
    }

    /// Gives a lock back, or gives up waiting for it.
    pub fn unlock_federation_txnid(&mut self, ticket: usize)
        requires
            old(self)@.wf(),
        ensures
            final(self)@ == old(self)@.after_unlock(ticket as nat),
            forall|i: int|
                0 <= i < final(self)@.locks.len() ==> (#[trigger] final(self)@.locks[i]).0
                    != ticket,
            final(self)@.answers == old(self)@.answers,
            final(self)@.capacity == old(self)@.capacity,
            final(self)@.map == old(self)@.map,
            final(self)@.wf(),
    {
        proof {
            lemma_without(self@.locks, ticket as nat);
        }
        self.mem.federation_txnid_mutex.release(ticket);
        proof {
            lemma_key_not_held(self@.locks, ticket as nat);
        }
    }

    /// The cached answer to a federation transaction, which becomes the most recently used one.
    pub fn existing_federation_txnid(&mut self, origin: &ServerName, txn_id: &TransactionId) -> (
    response: Option<Response>)
        requires
            old(self)@.wf(),
        ensures
            match response {
                Some(answer) => old(self)@.answer_to(origin@, txn_id@) == Some(answer@),
                None => old(self)@.answer_to(origin@, txn_id@) is None,
            },
            final(self)@ == old(self)@.after_lookup(origin@, txn_id@),
            final(self)@.answers.len() == old(self)@.answers.len(),
            response matches Some(answer) ==> final(self)@.answers.last() == (
                encode_utf8(origin@) + seq![0xFFu8] + encode_utf8(txn_id@),
                answer@,
            ),
            response is None ==> final(self)@.answers == old(self)@.answers,
            final(self)@.capacity == old(self)@.capacity,
            final(self)@.locks == old(self)@.locks,
            final(self)@.map == old(self)@.map,
            final(self)@.wf(),
    {
        let key = federation_txnid_key(origin, txn_id);
        proof {
            lemma_refreshed(self@.answers, key@);
        }
        match get_refreshed(&mut self.mem.federation_txnid_response, &key) {
            Some(answer) => Some(answer.clone()),
            None => None,
        }
    }

    /// Caches the answer to a federation transaction.
    pub fn add_federation_txnid(
        &mut self,
        origin: &ServerName,
        txn_id: &TransactionId,
        response: Response,
    )
        requires
            old(self)@.wf(),
        ensures
            final(self)@ == old(self)@.after_add(origin@, txn_id@, response@),
            final(self)@.capacity > 0 ==> final(self)@.answers.last() == (
                encode_utf8(origin@) + seq![0xFFu8] + encode_utf8(txn_id@),
                response@,
            ),
            final(self)@.capacity == old(self)@.capacity,
            final(self)@.locks == old(self)@.locks,
            final(self)@.map == old(self)@.map,
            final(self)@.wf(),
    {
        let key = federation_txnid_key(origin, txn_id);
        proof {
            lemma_inserted(self@.answers, self@.capacity, key@, response@);
        }
        let _ = insert_newest(&mut self.mem.federation_txnid_response, key, response);
    }
}

} // verus!
