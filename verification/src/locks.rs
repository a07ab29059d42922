//! Locks on keys: of all who ask for one key, one at a time holds it, in the order of asking.

use vstd::prelude::*;

use crate::entries::{
    holds_key, is_at, keys_distinct, lemma_found_at, lemma_pushed, lemma_without, position,
    without,
};

verus! {

/// The requests that were made and not yet given up, in the order of arrival: the ticket of the
/// request, and the key that it asks for.
pub type Queue = Seq<(nat, Seq<u8>)>;

/// Some request before place `i` asks for the same key.
pub open spec fn is_behind(queue: Queue, i: int) -> bool {
    exists|j: int| 0 <= j < i && (#[trigger] queue[j]).1 == queue[i].1
}

/// The request with this ticket stands in the queue, and holds its key: no earlier request asks
/// for it.
pub open spec fn is_holder(queue: Queue, ticket: nat) -> bool {
    holds_key(queue, ticket) && !is_behind(queue, position(queue, ticket))
}

/// No request has this ticket, and every smaller number is the ticket of a request.
pub open spec fn is_first_unused(queue: Queue, ticket: nat) -> bool {
    !holds_key(queue, ticket) && forall|smaller: nat|
        smaller < ticket ==> #[trigger] holds_key(queue, smaller)
}

/// The smallest number that is not the ticket of a request.
pub open spec fn first_unused(queue: Queue) -> nat {
    choose|ticket: nat| is_first_unused(queue, ticket)
}

/// With so many tickets in use, the queue is at least as long.
proof fn lemma_tickets_need_room(queue: Queue, count: nat)
    requires
        forall|ticket: nat| ticket < count ==> #[trigger] holds_key(queue, ticket),
    ensures
        count <= queue.len(),
{
    let tickets = queue.map_values(|request: (nat, Seq<u8>)| request.0 as int);
    let range = vstd::set_lib::set_int_range(0, count as int);
    assert forall|n: int| range.contains(n) implies tickets.to_set().contains(n) by {
        assert(holds_key(queue, n as nat));
        let i = position(queue, n as nat);
        assert(is_at(queue, i, n as nat));
        assert(tickets[i] == n);
    }
    vstd::seq_lib::seq_to_set_is_finite(tickets);
    vstd::set_lib::lemma_int_range(0, count as int);
    vstd::set_lib::lemma_len_subset(range, tickets.to_set());
    tickets.lemma_cardinality_of_set();
}

/// There is an unused ticket from `start` on, where all smaller ones are in use.
proof fn lemma_unused_from(queue: Queue, start: nat)
    requires
        forall|ticket: nat| ticket < start ==> #[trigger] holds_key(queue, ticket),
    ensures
        exists|ticket: nat| is_first_unused(queue, ticket),
    decreases queue.len() + 1 - start,
{
    lemma_tickets_need_room(queue, start);
    if holds_key(queue, start) {
        lemma_tickets_need_room(queue, start + 1);
        lemma_unused_from(queue, start + 1);
    } else {
        assert(is_first_unused(queue, start));
    }
}

/// There always is a smallest unused ticket, and it is at most the length of the queue.
pub proof fn lemma_first_unused(queue: Queue)
    ensures
        is_first_unused(queue, first_unused(queue)),
        first_unused(queue) <= queue.len(),
{
    lemma_unused_from(queue, 0);
    lemma_tickets_need_room(queue, first_unused(queue));
}

/// One request for a key.
struct Request {
    ticket: usize,
    key: Vec<u8>,
}

impl View for Request {
    type V = (nat, Seq<u8>);

    closed spec fn view(&self) -> (nat, Seq<u8>) {
        (self.ticket as nat, self.key@)
    }
}

/// The requests for keys.
pub struct LockTable {
    queue: Vec<Request>,
}

impl View for LockTable {
    type V = Queue;

    closed spec fn view(&self) -> Queue {
        self.queue@.map_values(|request: Request| request@)
    }
}

impl LockTable {
    /// No two requests have the same ticket.
    pub open spec fn wf(&self) -> bool {
        keys_distinct(self@)
    }

    /// A table without requests.
    pub fn new() -> (table: LockTable)
        ensures
            table.wf(),
            table@ == Queue::empty(),
    {
        let table = LockTable { queue: Vec::new() };
        assert(table@ =~= Queue::empty());
        table
    }

    /// The smallest ticket that no request has.
    fn unused_ticket(&self) -> (ticket: usize)
        requires
            self.wf(),
        ensures
            ticket == first_unused(self@),
    {
        proof {
            lemma_first_unused(self@);
        }
        assert(self@.len() == self.queue@.len());
        let mut ticket: usize = 0;
        while self.place_of(ticket).is_some()
            invariant
                self.wf(),
                self@.len() == self.queue@.len(),
                is_first_unused(self@, first_unused(self@)),
                first_unused(self@) <= self@.len(),
                ticket <= first_unused(self@),
                forall|smaller: nat| smaller < ticket ==> #[trigger] holds_key(self@, smaller),
            decreases self.queue.len() - ticket,
        {
            assert(ticket < first_unused(self@));
            assert(first_unused(self@) <= self.queue.len());
            ticket += 1;
        }
        assert(is_first_unused(self@, ticket as nat));
        ticket
    }

    /// Puts a request for a key at the end of the queue.
    pub fn request(&mut self, key: Vec<u8>) -> (ticket: usize)
        requires
            old(self).wf(),
        ensures
            final(self).wf(),
            ticket == first_unused(old(self)@),
            final(self)@ == old(self)@.push((ticket as nat, key@)),
    {
        let ticket: usize = self.unused_ticket();
        proof {
            lemma_first_unused(self@);
            lemma_pushed(self@, ticket as nat, key@);
        }
        self.queue.push(Request { ticket, key });
        assert(self@ =~= old(self)@.push((ticket as nat, key@)));
        ticket
    }

    /// The place of the request with this ticket.
    fn place_of(&self, ticket: usize) -> (place: Option<usize>)
        requires
            self.wf(),
        ensures
            match place {
                Some(i) => is_at(self@, i as int, ticket as nat) && position(self@, ticket as nat)
                    == i,
                None => !holds_key(self@, ticket as nat),
            },
    {
        let mut i: usize = 0;
        while i < self.queue.len()
            invariant
                self.wf(),
                i <= self.queue.len(),
                forall|j: int| 0 <= j < i ==> (#[trigger] self@[j]).0 != ticket,
            decreases self.queue.len() - i,
        {
            assert(self@[i as int] == self.queue@[i as int]@);
            if self.queue[i].ticket == ticket {
                proof {
                    lemma_found_at(self@, i as int);
                }
                return Some(i);
            }
            i += 1;
        }
        assert(self@.len() == self.queue@.len());
        None
    }

    /// Whether the request with this ticket holds its key.
    pub fn holds(&self, ticket: usize) -> (holder: bool)
        requires
            self.wf(),
        ensures
            holder == is_holder(self@, ticket as nat),
    {
        let place = match self.place_of(ticket) {
            Some(place) => place,
            None => {
                return false;
            },
        };
        let mut i: usize = 0;
        while i < place
            invariant
                i <= place < self.queue.len(),
                is_at(self@, place as int, ticket as nat),
                position(self@, ticket as nat) == place,
                forall|j: int| 0 <= j < i ==> (#[trigger] self@[j]).1 != self@[place as int].1,
            decreases place - i,
        {
            assert(self@[i as int] == self.queue@[i as int]@);
            assert(self@[place as int] == self.queue@[place as int]@);
            if self.queue[i].key == self.queue[place].key {
                assert(self.queue@[i as int].key@ =~= self.queue@[place as int].key@);
                assert(is_behind(self@, place as int));
                return false;
            }
            i += 1;
        }
        true
    }

    /// Takes the request with this ticket out of the queue, whether it holds its key or still
    /// waits for it.
    pub fn release(&mut self, ticket: usize)
        requires
            old(self).wf(),
        ensures
            final(self).wf(),
            final(self)@ == without(old(self)@, ticket as nat),
    {
        proof {
            lemma_without(self@, ticket as nat);
        }
        if let Some(place) = self.place_of(ticket) {
            self.queue.remove(place);
            assert(self@ =~= old(self)@.remove(place as int));
        }
    }
}

} // verus!
