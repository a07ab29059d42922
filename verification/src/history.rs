//! What holds of the service after any sequence of operations.

use vstd::prelude::*;

use crate::cache::Answer;
use crate::entries::{
    found, holds_key, inserted, is_at, keys_after, keys_distinct, lemma_found_at, lemma_inserted,
    lemma_keys_after_count, lemma_keys_after_insert, lemma_keys_after_refresh, lemma_refreshed,
    position, without,
};
use crate::keys::{federation_key, law_federation_keys_are_distinct};
use crate::laws::{
    law_new_request_waits_for_the_earlier_ones, law_one_holder_at_a_time,
    law_operations_keep_the_state_well_formed,
};
use crate::locks::is_behind;
use crate::state::State;

verus! {

/// A federation transaction: its origin and its identifier.
pub type Transaction = (Seq<char>, Seq<char>);

/// The key of a federation transaction.
pub open spec fn key_of(txn: Transaction) -> Seq<u8> {
    federation_key(txn.0, txn.1)
}

/// One operation on what the service keeps in memory.
pub enum Step {
    /// An answer to a transaction is cached.
    Add { txn: Transaction, answer: Answer },
    /// The answer to a transaction is looked up.
    Lookup { txn: Transaction },
    /// The cache is cleared.
    Clear,
    /// The lock on a transaction is asked for.
    Lock { txn: Transaction },
    /// The lock request with a ticket is given up.
    Unlock { ticket: nat },
}

impl State {
    /// The state after one operation.
    pub open spec fn after_step(self, step: Step) -> State {
        match step {
            Step::Add { txn, answer } => self.after_add(txn.0, txn.1, answer),
            Step::Lookup { txn } => self.after_lookup(txn.0, txn.1),
            Step::Clear => self.after_clear(),
            Step::Lock { txn } => self.after_lock(txn.0, txn.1),
            Step::Unlock { ticket } => self.after_unlock(ticket),
        }
    }

    /// The state after several operations, one after the other.
    pub open spec fn after_steps(self, steps: Seq<Step>) -> State
        decreases steps.len(),
    {
        if steps.len() == 0 {
            self
        } else {
            self.after_steps(steps.drop_last()).after_step(steps.last())
        }
    }
}

/// The operation caches an answer to the transaction.
pub open spec fn adds(step: Step, txn: Transaction) -> bool {
    step matches Step::Add { txn: added, .. } && added == txn
}

/// Operation `i` uses the cached answer to the transaction: it caches one, or looks it up and
/// finds it.
pub open spec fn uses(s: State, steps: Seq<Step>, i: int, txn: Transaction) -> bool {
    0 <= i < steps.len() && match steps[i] {
        Step::Add { txn: added, .. } => added == txn,
        Step::Lookup { txn: asked } => asked == txn && s.after_steps(steps.take(i)).answer_to(
            txn.0,
            txn.1,
        ) is Some,
        _ => false,
    }
}

/// Operation `i` is the latest one that caches an answer to the transaction.
pub open spec fn is_last_add(steps: Seq<Step>, i: int, txn: Transaction) -> bool {
    0 <= i < steps.len() && adds(steps[i], txn) && forall|j: int|
        i < j < steps.len() ==> !adds(#[trigger] steps[j], txn)
}

/// Operation `i` is the latest one that uses the cached answer to the transaction.
pub open spec fn is_last_use(s: State, steps: Seq<Step>, i: int, txn: Transaction) -> bool {
    uses(s, steps, i, txn) && forall|j: int| i < j ==> !#[trigger] uses(s, steps, j, txn)
}

/// The cache is cleared after operation `i`.
pub open spec fn cleared_after(steps: Seq<Step>, i: int) -> bool {
    exists|j: int| i < j < steps.len() && #[trigger] steps[j] is Clear
}

/// The other transactions whose cached answers are used after operation `i`.
pub open spec fn others_used_after(
    s: State,
    steps: Seq<Step>,
    i: int,
    txn: Transaction,
) -> Set<Transaction> {
    Set::new(
        |other: Transaction|
            other != txn && exists|j: int| i < j && #[trigger] uses(s, steps, j, other),
    )
}

/// Operation `a` cached the latest answer to the transaction, which was not cleared since, and
/// operation `u` used it last.
pub open spec fn is_live(s: State, steps: Seq<Step>, a: int, u: int, txn: Transaction) -> bool {
    &&& is_last_add(steps, a, txn)
    &&& !cleared_after(steps, a)
    &&& is_last_use(s, steps, u, txn)
}

/// Operation `a` cached the latest answer to the transaction, which was not cleared since, and
/// operation `u` used it last; since then, fewer other transactions than the capacity were used.
pub open spec fn is_remembered(
    s: State,
    steps: Seq<Step>,
    a: int,
    u: int,
    txn: Transaction,
) -> bool {
    is_live(s, steps, a, u, txn) && others_used_after(s, steps, u, txn).len() < s.capacity
}

/// After any operations on an empty cache, the answer to a transaction is cached if and only if it
/// was added since the cache was last cleared, and fewer distinct other transactions than the
/// capacity were added, or looked up and found, since it was itself last added or found. The
/// answer is then the one that was added last.
pub proof fn law_answer_is_cached_while_recently_used(
    s: State,
    steps: Seq<Step>,
    txn: Transaction,
)
    requires
        s.wf(),
        s.answers.len() == 0,
    ensures
        match s.after_steps(steps).answer_to(txn.0, txn.1) {
            Some(answer) => exists|a: int, u: int| #[trigger]
                is_remembered(s, steps, a, u, txn) && steps[a]->answer == answer,
            None => !exists|a: int, u: int| #[trigger] is_remembered(s, steps, a, u, txn),
        },
        forall|i: int| #[trigger] others_used_after(s, steps, i, txn).finite(),
{
    let end = s.after_steps(steps);
    let key = key_of(txn);
    lemma_history(s, steps, txn);
    assert forall|i: int| #[trigger] others_used_after(s, steps, i, txn).finite() by {
        lemma_others_finite(s, steps, i, txn);
    }
    if holds_key(end.answers, key) {
        let (a, u) = choose|a: int, u: int| is_live(s, steps, a, u, txn);
        assert(is_live(s, steps, a, u, txn));
        assert(is_traced(s, steps, a, u, txn));
        lemma_keys_after_count(end.answers, key);
        assert(is_at(end.answers, position(end.answers, key), key));
        lemma_as_many_keys(others_used_after(s, steps, u, txn));
        assert(is_remembered(s, steps, a, u, txn));
    } else {
        assert forall|a: int, u: int| !#[trigger] is_remembered(s, steps, a, u, txn) by {
            if is_live(s, steps, a, u, txn) {
                assert(is_traced(s, steps, a, u, txn));
            }
        }
    }
}

/// What the cache shows of a transaction that is live: its answer, with the keys of the other
/// transactions used since behind it; or those are as many as the capacity, and it is gone.
spec fn is_traced(s: State, steps: Seq<Step>, a: int, u: int, txn: Transaction) -> bool {
    let answers = s.after_steps(steps).answers;
    let others = others_used_after(s, steps, u, txn);
    if holds_key(answers, key_of(txn)) {
        &&& found(answers, key_of(txn)) == Some(steps[a]->answer)
        &&& keys_after(answers, key_of(txn)) == others.map(|other: Transaction| key_of(other))
    } else {
        others.len() >= s.capacity
    }
}

/// Different transactions have different keys.
proof fn lemma_as_many_keys(txns: Set<Transaction>)
    requires
        txns.finite(),
    ensures
        txns.map(|txn: Transaction| key_of(txn)).finite(),
        txns.map(|txn: Transaction| key_of(txn)).len() == txns.len(),
{
    let f = |txn: Transaction| key_of(txn);
    assert forall|x: Transaction, y: Transaction|
        txns.contains(x) && txns.contains(y) && #[trigger] f(x) == #[trigger] f(y) implies x
        == y by {
        law_federation_keys_are_distinct(x.0, x.1, y.0, y.1);
    }
    vstd::set_lib::lemma_map_size(txns, txns.map(f), f);
}

/// Only the transactions of the operations are used.
proof fn lemma_others_finite(s: State, steps: Seq<Step>, i: int, txn: Transaction)
    ensures
        others_used_after(s, steps, i, txn).finite(),
{
    let txns = steps.map_values(
        |step: Step|
            match step {
                Step::Add { txn, .. } => txn,
                Step::Lookup { txn } => txn,
                _ => txn,
            },
    );
    vstd::seq_lib::seq_to_set_is_finite(txns);
    assert forall|other: Transaction|
        others_used_after(s, steps, i, txn).contains(other) implies txns.to_set().contains(
        other,
    ) by {
        let j = choose|j: int| i < j && #[trigger] uses(s, steps, j, other);
        assert(txns[j] == other);
    }
    vstd::set_lib::lemma_len_subset(others_used_after(s, steps, i, txn), txns.to_set());
}

/// One more operation changes nothing of what the earlier ones used.
proof fn lemma_earlier_uses(s: State, first: Seq<Step>, last: Step)
    ensures
        s.after_steps(first.push(last)) == s.after_steps(first).after_step(last),
        forall|i: int, txn: Transaction|
            i < first.len() ==> #[trigger] uses(s, first.push(last), i, txn) == uses(
                s,
                first,
                i,
                txn,
            ),
{
    let steps = first.push(last);
    assert(steps.drop_last() =~= first);
    assert forall|i: int, txn: Transaction| i < first.len() implies #[trigger] uses(
        s,
        steps,
        i,
        txn,
    ) == uses(s, first, i, txn) by {
        if 0 <= i {
            assert(steps[i] == first[i]);
            assert(steps.take(i) =~= first.take(i));
        }
    }
}

/// Where the operation neither uses a transaction nor clears the cache, what was live stays live,
/// and nothing else is; another transaction that it uses counts.
proof fn lemma_live_as_before(
    s: State,
    first: Seq<Step>,
    last: Step,
    a: int,
    u: int,
    txn: Transaction,
)
    requires
        !uses(s, first.push(last), first.len() as int, txn),
        !(last is Clear),
    ensures
        is_live(s, first.push(last), a, u, txn) == is_live(s, first, a, u, txn),
        is_live(s, first, a, u, txn) ==> others_used_after(s, first.push(last), u, txn)
            == others_used_after(s, first, u, txn).union(
            Set::new(|other: Transaction| uses(s, first.push(last), first.len() as int, other)),
        ),
{
    let steps = first.push(last);
    let n = first.len() as int;
    lemma_earlier_uses(s, first, last);
    assert(!adds(last, txn));
    assert(steps[n] == last);
    assert(forall|j: int| 0 <= j < n ==> steps[j] == first[j]);
    if is_live(s, first, a, u, txn) {
        assert forall|j: int| a < j < steps.len() implies !adds(#[trigger] steps[j], txn) by {
            if j < n {
                assert(!adds(first[j], txn));
            }
        }
        if cleared_after(steps, a) {
            let j = choose|j: int| a < j < steps.len() && #[trigger] steps[j] is Clear;
            assert(first[j] is Clear);
        }
        assert forall|j: int| u < j implies !#[trigger] uses(s, steps, j, txn) by {
            if j < n {
                assert(!uses(s, first, j, txn));
            }
        }
        assert(uses(s, steps, u, txn));
        let more = others_used_after(s, first, u, txn).union(
            Set::new(|other: Transaction| uses(s, steps, n, other)),
        );
        assert forall|other: Transaction|
            others_used_after(s, steps, u, txn).contains(other) == more.contains(other) by {
            if others_used_after(s, steps, u, txn).contains(other) {
                let j = choose|j: int| u < j && #[trigger] uses(s, steps, j, other);
                if j < n {
                    assert(uses(s, first, j, other));
                }
            }
            if others_used_after(s, first, u, txn).contains(other) {
                let j = choose|j: int| u < j && #[trigger] uses(s, first, j, other);
                assert(uses(s, steps, j, other));
            }
            if uses(s, steps, n, other) {
                assert(u < n);
            }
        }
        assert(others_used_after(s, steps, u, txn) =~= more);
    }
    if is_live(s, steps, a, u, txn) {
        assert(a < n) by {
            assert(adds(steps[a], txn));
        }
        assert forall|j: int| a < j < first.len() implies !adds(#[trigger] first[j], txn) by {
            assert(!adds(steps[j], txn));
        }
        if cleared_after(first, a) {
            let j = choose|j: int| a < j < first.len() && #[trigger] first[j] is Clear;
            assert(steps[j] is Clear);
        }
        assert(u < n);
        assert(uses(s, first, u, txn));
        assert forall|j: int| u < j implies !#[trigger] uses(s, first, j, txn) by {
            if j < n {
                assert(!uses(s, steps, j, txn));
            }
        }
    }
}

/// The same after one more operation.
proof fn lemma_history_step(s: State, first: Seq<Step>, last: Step, txn: Transaction)
    requires
        s.after_steps(first).wf(),
        s.after_steps(first).capacity == s.capacity,
        holds_key(s.after_steps(first).answers, key_of(txn)) ==> exists|a: int, u: int|
            is_live(s, first, a, u, txn),
        forall|a: int, u: int|
            #[trigger] is_live(s, first, a, u, txn) ==> is_traced(s, first, a, u, txn),
    ensures
        s.after_steps(first.push(last)).wf(),
        s.after_steps(first.push(last)).capacity == s.capacity,
        holds_key(s.after_steps(first.push(last)).answers, key_of(txn)) ==> exists|
            a: int,
            u: int,
        |
            is_live(s, first.push(last), a, u, txn),
        forall|a: int, u: int|
            #[trigger] is_live(s, first.push(last), a, u, txn) ==> is_traced(
                s,
                first.push(last),
                a,
                u,
                txn,
            ),
{
    let key = key_of(txn);
    let steps = first.push(last);
    let n = first.len() as int;
    let before = s.after_steps(first);
    let end = s.after_steps(steps);
    lemma_earlier_uses(s, first, last);
    assert(steps[n] == last);
    assert(steps.take(n) =~= first);
    lemma_step_keeps_wf(before, last);
    if last is Clear {
        assert forall|a: int, u: int| #[trigger] is_live(s, steps, a, u, txn) implies is_traced(
            s,
            steps,
            a,
            u,
            txn,
        ) by {
            assert(adds(steps[a], txn));
            assert(a != n);
            assert(steps[n] is Clear);
            assert(cleared_after(steps, a));
        }
    } else if uses(s, steps, n, txn) {
        lemma_history_use(s, first, last, txn);
    } else {
        lemma_history_no_use(s, first, last, txn);
    }
}

/// Every operation keeps the state well-formed, and the capacity.
proof fn lemma_step_keeps_wf(s: State, step: Step)
    requires
        s.wf(),
    ensures
        s.after_step(step).wf(),
        s.after_step(step).capacity == s.capacity,
{
    let none: Answer = Seq::empty();
    match step {
        Step::Add { txn, answer } => {
            law_operations_keep_the_state_well_formed(s, txn.0, txn.1, answer, 0);
        },
        Step::Lookup { txn } => {
            law_operations_keep_the_state_well_formed(s, txn.0, txn.1, none, 0);
        },
        Step::Clear => {
            law_operations_keep_the_state_well_formed(s, Seq::empty(), Seq::empty(), none, 0);
        },
        Step::Lock { txn } => {
            law_operations_keep_the_state_well_formed(s, txn.0, txn.1, none, 0);
        },
        Step::Unlock { ticket } => {
            law_operations_keep_the_state_well_formed(s, Seq::empty(), Seq::empty(), none, ticket);
        },
    }
}

/// The step where the operation uses the transaction.
proof fn lemma_history_use(s: State, first: Seq<Step>, last: Step, txn: Transaction)
    requires
        s.after_steps(first).wf(),
        s.after_steps(first).capacity == s.capacity,
        holds_key(s.after_steps(first).answers, key_of(txn)) ==> exists|a: int, u: int|
            is_live(s, first, a, u, txn),
        forall|a: int, u: int|
            #[trigger] is_live(s, first, a, u, txn) ==> is_traced(s, first, a, u, txn),
        uses(s, first.push(last), first.len() as int, txn),
    ensures
        holds_key(s.after_steps(first.push(last)).answers, key_of(txn)) ==> exists|
            a: int,
            u: int,
        |
            is_live(s, first.push(last), a, u, txn),
        forall|a: int, u: int|
            #[trigger] is_live(s, first.push(last), a, u, txn) ==> is_traced(
                s,
                first.push(last),
                a,
                u,
                txn,
            ),
{
    let key = key_of(txn);
    let steps = first.push(last);
    let n = first.len() as int;
    let before = s.after_steps(first);
    let end = s.after_steps(steps);
    lemma_earlier_uses(s, first, last);
    assert(steps[n] == last);
    assert(steps.take(n) =~= first);
    assert(forall|j: int| 0 <= j < n ==> steps[j] == first[j]);
    assert(is_last_use(s, steps, n, txn));
    let none = others_used_after(s, steps, n, txn);
    assert(none =~= Set::empty());
    assert(none.map(|other: Transaction| key_of(other)) =~= Set::<Seq<u8>>::empty());
    match last {
        Step::Add { answer, .. } => {
            lemma_inserted(before.answers, before.capacity, key, answer);
            assert(is_last_add(steps, n, txn));
            assert(!cleared_after(steps, n));
            assert(is_live(s, steps, n, n, txn));
            if s.capacity > 0 {
                lemma_nothing_after_the_last(end.answers, key);
            }
            assert forall|a: int, u: int| #[trigger]
                is_live(s, steps, a, u, txn) implies is_traced(s, steps, a, u, txn) by {
                if a < n {
                    assert(adds(steps[n], txn));
                }
                assert(a == n && u == n);
                assert(steps[a]->answer == answer);
            }
        },
        _ => {
            lemma_refreshed(before.answers, key);
            assert(holds_key(before.answers, key));
            lemma_keys_after_refresh(before.answers, key, key);
            let (a0, u0) = choose|a: int, u: int| is_live(s, first, a, u, txn);
            assert(is_live(s, first, a0, u0, txn));
            assert(is_traced(s, first, a0, u0, txn));
            assert(adds(steps[a0], txn));
            assert forall|j: int| a0 < j < steps.len() implies !adds(#[trigger] steps[j], txn) by {
                if j < n {
                    assert(!adds(first[j], txn));
                }
            }
            if cleared_after(steps, a0) {
                let j = choose|j: int| a0 < j < steps.len() && #[trigger] steps[j] is Clear;
                assert(first[j] is Clear);
            }
            assert(is_live(s, steps, a0, n, txn));
            assert forall|a: int, u: int| #[trigger]
                is_live(s, steps, a, u, txn) implies is_traced(s, steps, a, u, txn) by {
                if a < a0 {
                    assert(!adds(steps[a0], txn));
                } else if a0 < a {
                    assert(!adds(steps[a], txn));
                }
                assert(a == a0 && u == n);
                assert(found(end.answers, key) == found(before.answers, key));
            }
        },
    }
}

/// Behind the last entry there is none.
proof fn lemma_nothing_after_the_last(answers: Seq<(Seq<u8>, Answer)>, key: Seq<u8>)
    requires
        keys_distinct(answers),
        answers.len() > 0,
        answers.last().0 == key,
    ensures
        holds_key(answers, key),
        keys_after(answers, key) == Set::<Seq<u8>>::empty(),
{
    lemma_found_at(answers, answers.len() - 1);
    assert(keys_after(answers, key) =~= Set::<Seq<u8>>::empty());
}

/// The step where the operation neither uses the transaction nor clears the cache.
proof fn lemma_history_no_use(s: State, first: Seq<Step>, last: Step, txn: Transaction)
    requires
        s.after_steps(first).wf(),
        s.after_steps(first).capacity == s.capacity,
        holds_key(s.after_steps(first).answers, key_of(txn)) ==> exists|a: int, u: int|
            is_live(s, first, a, u, txn),
        forall|a: int, u: int|
            #[trigger] is_live(s, first, a, u, txn) ==> is_traced(s, first, a, u, txn),
        !uses(s, first.push(last), first.len() as int, txn),
        !(last is Clear),
    ensures
        holds_key(s.after_steps(first.push(last)).answers, key_of(txn)) ==> exists|
            a: int,
            u: int,
        |
            is_live(s, first.push(last), a, u, txn),
        forall|a: int, u: int|
            #[trigger] is_live(s, first.push(last), a, u, txn) ==> is_traced(
                s,
                first.push(last),
                a,
                u,
                txn,
            ),
{
    let key = key_of(txn);
    let steps = first.push(last);
    let n = first.len() as int;
    let before = s.after_steps(first);
    let end = s.after_steps(steps);
    let new = used_by(before, last);
    lemma_earlier_uses(s, first, last);
    assert(steps[n] == last);
    assert(steps.take(n) =~= first);
    assert(Set::new(|other: Transaction| uses(s, steps, n, other)) =~= new);
    assert(!new.contains(txn));
    lemma_cache_without_use(before, last, txn);
    if holds_key(end.answers, key) {
        let (a, u) = choose|a: int, u: int| is_live(s, first, a, u, txn);
        lemma_live_as_before(s, first, last, a, u, txn);
        assert(is_live(s, steps, a, u, txn));
    }
    assert forall|a: int, u: int| #[trigger] is_live(s, steps, a, u, txn) implies is_traced(
        s,
        steps,
        a,
        u,
        txn,
    ) by {
        lemma_live_as_before(s, first, last, a, u, txn);
        assert(is_live(s, first, a, u, txn));
        assert(is_traced(s, first, a, u, txn));
        assert(a < n && steps[a] == first[a]);
        let others = others_used_after(s, first, u, txn);
        let more = others_used_after(s, steps, u, txn);
        lemma_others_finite(s, steps, u, txn);
        assert(more == others.union(new));
        vstd::set_lib::lemma_len_subset(others, more);
        lemma_as_many_keys(more);
        others.lemma_map_union_commute(new, |other: Transaction| key_of(other));
    }
}

/// The transactions whose cached answers an operation uses.
spec fn used_by(s: State, step: Step) -> Set<Transaction> {
    match step {
        Step::Add { txn, .. } => Set::empty().insert(txn),
        Step::Lookup { txn } => if s.answer_to(txn.0, txn.1) is Some {
            Set::empty().insert(txn)
        } else {
            Set::empty()
        },
        _ => Set::empty(),
    }
}

/// What an operation does to the entry of a transaction that it does not use: the keys that it
/// uses come behind, and where they are then as many as the capacity, the entry can go.
proof fn lemma_cache_without_use(s: State, step: Step, txn: Transaction)
    requires
        s.wf(),
        !used_by(s, step).contains(txn),
        !(step is Clear),
    ensures
        ({
            let key = key_of(txn);
            let before = s.answers;
            let after = s.after_step(step).answers;
            let behind = keys_after(before, key).union(
                used_by(s, step).map(|other: Transaction| key_of(other)),
            );
            &&& holds_key(after, key) ==> {
                &&& holds_key(before, key)
                &&& found(after, key) == found(before, key)
                &&& keys_after(after, key) == behind
            }
            &&& holds_key(before, key) && !holds_key(after, key) ==> behind.len() >= s.capacity
        }),
{
    let key = key_of(txn);
    let f = |other: Transaction| key_of(other);
    let old_keys = keys_after(s.answers, key);
    match step {
        Step::Add { txn: other, answer } => {
            law_federation_keys_are_distinct(txn.0, txn.1, other.0, other.1);
            lemma_inserted(s.answers, s.capacity, f(other), answer);
            assert(s.after_step(step).answers == inserted(
                s.answers,
                s.capacity,
                f(other),
                answer,
            ));
            if holds_key(s.answers, key) {
                lemma_keys_after_insert(s.answers, s.capacity, key, f(other), answer);
            }
            lemma_map_of_one(other, f);
            assert(old_keys.union(Set::empty().insert(f(other))) =~= old_keys.insert(f(other)));
        },
        Step::Lookup { txn: other } => {
            law_federation_keys_are_distinct(txn.0, txn.1, other.0, other.1);
            lemma_refreshed(s.answers, f(other));
            if holds_key(s.answers, key) {
                lemma_keys_after_refresh(s.answers, key, f(other));
            }
            lemma_map_of_one(other, f);
            lemma_map_of_none(f);
            assert(old_keys.union(Set::empty().insert(f(other))) =~= old_keys.insert(f(other)));
            assert(old_keys.union(Set::empty()) =~= old_keys);
        },
        _ => {
            lemma_map_of_none(f);
            assert(old_keys.union(Set::empty()) =~= old_keys);
        },
    }
}

/// The image of one element.
proof fn lemma_map_of_one(txn: Transaction, f: spec_fn(Transaction) -> Seq<u8>)
    ensures
        Set::<Transaction>::empty().insert(txn).map(f) == Set::<Seq<u8>>::empty().insert(f(txn)),
{
    let one = Set::<Transaction>::empty().insert(txn);
    assert(one.contains(txn));
    assert(one.map(f) =~= Set::<Seq<u8>>::empty().insert(f(txn)));
}

/// The image of nothing.
proof fn lemma_map_of_none(f: spec_fn(Transaction) -> Seq<u8>)
    ensures
        Set::<Transaction>::empty().map(f) == Set::<Seq<u8>>::empty(),
{
    assert(Set::<Transaction>::empty().map(f) =~= Set::<Seq<u8>>::empty());
}

/// What the cache shows of a transaction after any operations.
proof fn lemma_history(s: State, steps: Seq<Step>, txn: Transaction)
    requires
        s.wf(),
        s.answers.len() == 0,
    ensures
        s.after_steps(steps).wf(),
        s.after_steps(steps).capacity == s.capacity,
        holds_key(s.after_steps(steps).answers, key_of(txn)) ==> exists|a: int, u: int|
            is_live(s, steps, a, u, txn),
        forall|a: int, u: int|
            #[trigger] is_live(s, steps, a, u, txn) ==> is_traced(s, steps, a, u, txn),
    decreases steps.len(),
{
    if steps.len() > 0 {
        let first = steps.drop_last();
        let last = steps.last();
        assert(steps =~= first.push(last));
        lemma_history(s, first, txn);
        lemma_history_step(s, first, last, txn);
    }
}

/// The transactions whose answers are cached.
pub open spec fn cached_transactions(s: State) -> Set<Transaction> {
    Set::new(|txn: Transaction| s.answer_to(txn.0, txn.1) is Some)
}

/// After any operations on an empty cache, it has as many entries as there are transactions whose
/// answers are found in it.
pub proof fn law_every_entry_is_the_answer_to_one_transaction(s: State, steps: Seq<Step>)
    requires
        s.wf(),
        s.answers.len() == 0,
    ensures
        cached_transactions(s.after_steps(steps)).finite(),
        cached_transactions(s.after_steps(steps)).len() == s.after_steps(steps).answers.len(),
{
    let answers = s.after_steps(steps).answers;
    let txns = cached_transactions(s.after_steps(steps));
    law_any_operations_keep_the_state_well_formed(s, steps);
    lemma_entries_have_transactions(s, steps);
    let owners = Seq::new(
        answers.len(),
        |k: int| choose|txn: Transaction| answers[k].0 == #[trigger] key_of(txn),
    );
    assert forall|k: int| 0 <= k < owners.len() implies answers[k].0 == key_of(
        #[trigger] owners[k],
    ) by {
        assert(is_owned(answers[k].0));
    }
    assert forall|i: int, j: int|
        0 <= i < owners.len() && 0 <= j < owners.len() && i != j implies owners[i]
        != owners[j] by {
        if i < j {
            assert(answers[i].0 != answers[j].0);
        } else {
            assert(answers[j].0 != answers[i].0);
        }
    }
    owners.unique_seq_to_set();
    vstd::seq_lib::seq_to_set_is_finite(owners);
    assert forall|txn: Transaction| owners.to_set().contains(txn) == txns.contains(txn) by {
        if owners.to_set().contains(txn) {
            let k = choose|k: int| 0 <= k < owners.len() && owners[k] == txn;
            lemma_found_at(answers, k);
        }
        if txns.contains(txn) {
            let k = position(answers, key_of(txn));
            assert(is_at(answers, k, key_of(txn)));
            law_federation_keys_are_distinct(owners[k].0, owners[k].1, txn.0, txn.1);
            assert(owners[k] == txn);
        }
    }
    assert(owners.to_set() =~= txns);
}

/// The bytes are the key of some transaction.
spec fn is_owned(key: Seq<u8>) -> bool {
    exists|txn: Transaction| key == #[trigger] key_of(txn)
}

/// Every entry of the cache has the key of a transaction.
proof fn lemma_entries_have_transactions(s: State, steps: Seq<Step>)
    requires
        s.wf(),
        s.answers.len() == 0,
    ensures
        forall|k: int|
            0 <= k < s.after_steps(steps).answers.len() ==> is_owned(
                (#[trigger] s.after_steps(steps).answers[k]).0,
            ),
    decreases steps.len(),
{
    if steps.len() > 0 {
        let before = s.after_steps(steps.drop_last()).answers;
        let after = s.after_steps(steps).answers;
        lemma_entries_have_transactions(s, steps.drop_last());
        law_any_operations_keep_the_state_well_formed(s, steps.drop_last());
        match steps.last() {
            Step::Add { txn, answer } => {
                assert(is_owned(key_of(txn)));
                lemma_without_keeps_entries(before, key_of(txn));
            },
            Step::Lookup { txn } => {
                assert(is_owned(key_of(txn)));
                lemma_without_keeps_entries(before, key_of(txn));
            },
            _ => {},
        }
    }
}

/// Taking an entry out adds no key.
proof fn lemma_without_keeps_entries(answers: Seq<(Seq<u8>, Answer)>, key: Seq<u8>)
    requires
        forall|k: int| 0 <= k < answers.len() ==> is_owned((#[trigger] answers[k]).0),
    ensures
        forall|k: int|
            0 <= k < without(answers, key).len() ==> is_owned(
                (#[trigger] without(answers, key)[k]).0,
            ),
{
    if holds_key(answers, key) {
        let p = position(answers, key);
        assert(is_at(answers, p, key));
        answers.remove_ensures(p);
    }
}

/// However lock requests, releases and other operations follow one another, at most one request at
/// a time has the lock on a transaction.
pub proof fn law_one_holder_after_any_operations(
    s: State,
    steps: Seq<Step>,
    txn: Transaction,
    a: nat,
    b: nat,
)
    requires
        s.wf(),
        s.after_steps(steps).asks_for(a, txn.0, txn.1),
        s.after_steps(steps).asks_for(b, txn.0, txn.1),
        s.after_steps(steps).has_lock(a),
        s.after_steps(steps).has_lock(b),
    ensures
        a == b,
{
    law_any_operations_keep_the_state_well_formed(s, steps);
    law_one_holder_at_a_time(s.after_steps(steps), txn.0, txn.1, a, b);
}

/// Any operations, one after the other, keep the state well-formed, and the capacity.
pub proof fn law_any_operations_keep_the_state_well_formed(s: State, steps: Seq<Step>)
    requires
        s.wf(),
    ensures
        s.after_steps(steps).wf(),
        s.after_steps(steps).capacity == s.capacity,
    decreases steps.len(),
{
    if steps.len() > 0 {
        law_any_operations_keep_the_state_well_formed(s, steps.drop_last());
        lemma_step_keeps_wf(s.after_steps(steps.drop_last()), steps.last());
    }
}

/// The ticket that operation `i` gets, where it is a lock request.
pub open spec fn ticket_at(s: State, steps: Seq<Step>, i: int) -> nat {
    s.after_steps(steps.take(i)).next_ticket()
}

/// The request with this ticket is given up after operation `i`.
pub open spec fn given_up_after(steps: Seq<Step>, i: int, ticket: nat) -> bool {
    exists|j: int|
        i < j < steps.len() && #[trigger] steps[j] == (Step::Unlock { ticket })
}

/// Operation `i` asks for the lock on the transaction and gets the ticket, and the request is not
/// given up afterwards.
pub open spec fn is_outstanding(
    s: State,
    steps: Seq<Step>,
    i: int,
    ticket: nat,
    txn: Transaction,
) -> bool {
    &&& 0 <= i < steps.len()
    &&& steps[i] == (Step::Lock { txn })
    &&& ticket_at(s, steps, i) == ticket
    &&& !given_up_after(steps, i, ticket)
}

/// After any operations on a service without lock requests, a ticket asks for a transaction if and
/// only if a lock request for that transaction got it and was not given up since; and it has the
/// lock if and only if no earlier request for the same transaction is still there. When all
/// requests for a transaction were given up, nobody asks for it and nobody has its lock.
pub proof fn law_locks_are_had_in_turn(
    s: State,
    steps: Seq<Step>,
    ticket: nat,
    txn: Transaction,
)
    requires
        s.wf(),
        s.locks.len() == 0,
    ensures
        s.after_steps(steps).asks_for(ticket, txn.0, txn.1) <==> exists|i: int| #[trigger]
            is_outstanding(s, steps, i, ticket, txn),
        forall|i: int| #[trigger]
            is_outstanding(s, steps, i, ticket, txn) ==> (s.after_steps(steps).has_lock(ticket)
                <==> forall|j: int, other: nat|
                j < i ==> !#[trigger] is_outstanding(s, steps, j, other, txn)),
        s.after_steps(steps).has_lock(ticket) ==> exists|i: int, held: Transaction| #[trigger]
            is_outstanding(s, steps, i, ticket, held),
{
    let end = s.after_steps(steps);
    let queue = end.locks;
    let places = pending(s, steps);
    law_any_operations_keep_the_state_well_formed(s, steps);
    lemma_pending(s, steps);
    assert forall|i: int| #[trigger] is_outstanding(s, steps, i, ticket, txn) implies {
        &&& end.asks_for(ticket, txn.0, txn.1)
        &&& end.has_lock(ticket) <==> forall|j: int, other: nat|
            j < i ==> !#[trigger] is_outstanding(s, steps, j, other, txn)
    } by {
        assert(is_pending(s, steps, i));
        let k = choose|k: int| 0 <= k < places.len() && places[k] == i;
        assert(stands_for(s, steps, places[k], queue[k]));
        lemma_found_at(queue, k);
        if is_behind(queue, k) {
            let l = choose|l: int| 0 <= l < k && (#[trigger] queue[l]).1 == queue[k].1;
            assert(stands_for(s, steps, places[l], queue[l]));
            assert(places[l] < places[k]);
            let earlier = steps[places[l]]->Lock_txn;
            law_federation_keys_are_distinct(earlier.0, earlier.1, txn.0, txn.1);
            assert(is_outstanding(s, steps, places[l], queue[l].0, txn));
        }
        if exists|j: int, other: nat|
            j < i && #[trigger] is_outstanding(s, steps, j, other, txn) {
            let (j, other) = choose|j: int, other: nat|
                j < i && #[trigger] is_outstanding(s, steps, j, other, txn);
            assert(is_pending(s, steps, j));
            let l = choose|l: int| 0 <= l < places.len() && places[l] == j;
            assert(stands_for(s, steps, places[l], queue[l]));
            assert(l < k) by {
                if k < l {
                    assert(places[k] < places[l]);
                }
            }
            assert(queue[l].1 == queue[k].1);
            assert(is_behind(queue, k));
        }
    }
    if holds_key(queue, ticket) {
        let k = position(queue, ticket);
        assert(is_at(queue, k, ticket));
        assert(stands_for(s, steps, places[k], queue[k]));
        let held = steps[places[k]]->Lock_txn;
        assert(is_outstanding(s, steps, places[k], ticket, held));
        if end.asks_for(ticket, txn.0, txn.1) {
            law_federation_keys_are_distinct(held.0, held.1, txn.0, txn.1);
            assert(is_outstanding(s, steps, places[k], ticket, txn));
        }
    }
}

/// When all lock requests for a transaction were given up, the next one has the lock at once.
pub proof fn law_lock_is_free_when_all_gave_up(s: State, steps: Seq<Step>, txn: Transaction)
    requires
        s.wf(),
        s.locks.len() == 0,
        forall|i: int, ticket: nat| !#[trigger] is_outstanding(s, steps, i, ticket, txn),
    ensures
        s.after_steps(steps).after_lock(txn.0, txn.1).has_lock(
            s.after_steps(steps).next_ticket(),
        ),
{
    let end = s.after_steps(steps);
    law_any_operations_keep_the_state_well_formed(s, steps);
    assert forall|ticket: nat| !end.asks_for(ticket, txn.0, txn.1) by {
        law_locks_are_had_in_turn(s, steps, ticket, txn);
    }
    law_new_request_waits_for_the_earlier_ones(end, txn.0, txn.1, end.next_ticket() + 1);
}

/// Operation `i` is a lock request that is not given up afterwards.
spec fn is_pending(s: State, steps: Seq<Step>, i: int) -> bool {
    &&& 0 <= i < steps.len()
    &&& steps[i] is Lock
    &&& !given_up_after(steps, i, ticket_at(s, steps, i))
}

/// The entry of the queue is that of lock request `i`.
spec fn stands_for(s: State, steps: Seq<Step>, i: int, entry: (nat, Seq<u8>)) -> bool {
    &&& is_pending(s, steps, i)
    &&& entry.0 == ticket_at(s, steps, i)
    &&& entry.1 == key_of(steps[i]->Lock_txn)
}

/// The lock requests that the queue holds, in its order.
spec fn pending(s: State, steps: Seq<Step>) -> Seq<int>
    decreases steps.len(),
{
    if steps.len() == 0 {
        Seq::empty()
    } else {
        let before = s.after_steps(steps.drop_last());
        let earlier = pending(s, steps.drop_last());
        match steps.last() {
            Step::Lock { .. } => earlier.push(steps.len() - 1),
            Step::Unlock { ticket } => if holds_key(before.locks, ticket) {
                earlier.remove(position(before.locks, ticket))
            } else {
                earlier
            },
            _ => earlier,
        }
    }
}

/// The queue holds the pending lock requests, in the order in which they were made.
proof fn lemma_pending(s: State, steps: Seq<Step>)
    requires
        s.wf(),
        s.locks.len() == 0,
    ensures
        pending(s, steps).len() == s.after_steps(steps).locks.len(),
        forall|k: int|
            0 <= k < pending(s, steps).len() ==> stands_for(
                s,
                steps,
                #[trigger] pending(s, steps)[k],
                s.after_steps(steps).locks[k],
            ),
        forall|k: int, l: int|
            0 <= k < l < pending(s, steps).len() ==> #[trigger] pending(s, steps)[k]
                < #[trigger] pending(s, steps)[l],
        forall|i: int| #[trigger] is_pending(s, steps, i) ==> pending(s, steps).contains(i),
    decreases steps.len(),
{
    if steps.len() > 0 {
        let first = steps.drop_last();
        let last = steps.last();
        let n = first.len() as int;
        assert(steps =~= first.push(last));
        lemma_pending(s, first);
        law_any_operations_keep_the_state_well_formed(s, first);
        let before = s.after_steps(first).locks;
        let after = s.after_steps(steps).locks;
        let earlier = pending(s, first);
        let now = pending(s, steps);
        assert(steps.take(n) =~= first);
        assert forall|i: int| 0 <= i < n implies {
            &&& steps[i] == first[i]
            &&& #[trigger] ticket_at(s, steps, i) == ticket_at(s, first, i)
            &&& is_pending(s, steps, i) <==> is_pending(s, first, i) && last != (Step::Unlock {
                ticket: ticket_at(s, first, i),
            })
        } by {
            assert(steps.take(i) =~= first.take(i));
            lemma_given_up(first, last, i, ticket_at(s, first, i));
        }
        match last {
            Step::Lock { txn } => {
                assert(ticket_at(s, steps, n) == s.after_steps(first).next_ticket());
                assert(is_pending(s, steps, n));
                assert forall|k: int| 0 <= k < now.len() implies stands_for(
                    s,
                    steps,
                    #[trigger] now[k],
                    after[k],
                ) by {
                    if k < earlier.len() {
                        let i = earlier[k];
                        assert(stands_for(s, first, earlier[k], before[k]));
                        assert(ticket_at(s, steps, i) == ticket_at(s, first, i));
                    }
                }
                assert forall|k: int, l: int| 0 <= k < l < now.len() implies #[trigger] now[k]
                    < #[trigger] now[l] by {
                    assert(stands_for(s, first, earlier[k], before[k]));
                }
                assert forall|i: int| #[trigger] is_pending(s, steps, i) implies now.contains(
                    i,
                ) by {
                    if i < n {
                        assert(ticket_at(s, steps, i) == ticket_at(s, first, i));
                        let k = choose|k: int| 0 <= k < earlier.len() && earlier[k] == i;
                        assert(now[k] == i);
                    } else {
                        assert(now[earlier.len() as int] == i);
                    }
                }
            },
            Step::Unlock { ticket } => {
                lemma_pending_unlock(s, first, ticket);
            },
            _ => {
                assert forall|k: int| 0 <= k < now.len() implies stands_for(
                    s,
                    steps,
                    #[trigger] now[k],
                    after[k],
                ) by {
                    let i = earlier[k];
                    assert(stands_for(s, first, earlier[k], before[k]));
                    assert(ticket_at(s, steps, i) == ticket_at(s, first, i));
                }
                assert forall|i: int| #[trigger] is_pending(s, steps, i) implies now.contains(
                    i,
                ) by {
                    assert(i < n);
                    assert(ticket_at(s, steps, i) == ticket_at(s, first, i));
                }
            },
        }
    }
}

/// One more operation gives a request up only where it names its ticket.
proof fn lemma_given_up(first: Seq<Step>, last: Step, i: int, ticket: nat)
    requires
        0 <= i < first.len(),
    ensures
        given_up_after(first.push(last), i, ticket) <==> given_up_after(first, i, ticket) || (
        last == (Step::Unlock { ticket })),
{
    let steps = first.push(last);
    assert(steps[first.len() as int] == last);
    if given_up_after(first, i, ticket) {
        let j = choose|j: int|
            i < j < first.len() && #[trigger] first[j] == (Step::Unlock { ticket });
        assert(steps[j] == first[j]);
    }
    if given_up_after(steps, i, ticket) {
        let j = choose|j: int|
            i < j < steps.len() && #[trigger] steps[j] == (Step::Unlock { ticket });
        if j < first.len() {
            assert(first[j] == steps[j]);
        }
    }
}

/// The step where a request is given up.
proof fn lemma_pending_unlock(s: State, first: Seq<Step>, ticket: nat)
    requires
        s.after_steps(first).wf(),
        pending(s, first).len() == s.after_steps(first).locks.len(),
        forall|k: int|
            0 <= k < pending(s, first).len() ==> stands_for(
                s,
                first,
                #[trigger] pending(s, first)[k],
                s.after_steps(first).locks[k],
            ),
        forall|k: int, l: int|
            0 <= k < l < pending(s, first).len() ==> #[trigger] pending(s, first)[k]
                < #[trigger] pending(s, first)[l],
        forall|i: int| #[trigger] is_pending(s, first, i) ==> pending(s, first).contains(i),
    ensures
        ({
            let steps = first.push(Step::Unlock { ticket });
            let now = pending(s, steps);
            let after = s.after_steps(steps).locks;
            &&& now.len() == after.len()
            &&& forall|k: int|
                0 <= k < now.len() ==> stands_for(s, steps, #[trigger] now[k], after[k])
            &&& forall|k: int, l: int|
                0 <= k < l < now.len() ==> #[trigger] now[k] < #[trigger] now[l]
            &&& forall|i: int| #[trigger] is_pending(s, steps, i) ==> now.contains(i)
        }),
{
    let last = Step::Unlock { ticket };
    let steps = first.push(last);
    let n = first.len() as int;
    let before = s.after_steps(first).locks;
    let after = s.after_steps(steps).locks;
    let earlier = pending(s, first);
    let now = pending(s, steps);
    assert(steps.drop_last() =~= first);
    assert(steps[n] == last);
    assert forall|i: int| 0 <= i < n implies {
        &&& steps[i] == first[i]
        &&& #[trigger] ticket_at(s, steps, i) == ticket_at(s, first, i)
        &&& is_pending(s, steps, i) <==> is_pending(s, first, i) && ticket != ticket_at(
            s,
            first,
            i,
        )
    } by {
        assert(steps.take(i) =~= first.take(i));
        lemma_given_up(first, last, i, ticket_at(s, first, i));
    }
    let held = holds_key(before, ticket);
    let p = if held {
        position(before, ticket)
    } else {
        before.len() as int
    };
    if held {
        assert(is_at(before, p, ticket));
        before.remove_ensures(p);
        earlier.remove_ensures(p);
    }
    let from = |k: int| if k < p { k } else { k + 1 };
    assert forall|k: int| 0 <= k < now.len() implies #[trigger] now[k] == earlier[from(k)]
        && after[k] == before[from(k)] by {}
    assert forall|k: int| 0 <= k < now.len() implies stands_for(
        s,
        steps,
        #[trigger] now[k],
        after[k],
    ) by {
        let l = from(k);
        let i = earlier[l];
        assert(now[k] == i);
        assert(stands_for(s, first, earlier[l], before[l]));
        assert(before[l].0 != ticket) by {
            if before[l].0 == ticket {
                assert(is_at(before, l, ticket));
                lemma_found_at(before, l);
            }
        }
        assert(ticket_at(s, steps, i) == ticket_at(s, first, i));
    }
    assert forall|k: int, l: int| 0 <= k < l < now.len() implies #[trigger] now[k]
        < #[trigger] now[l] by {
        assert(earlier[from(k)] < earlier[from(l)]);
    }
    assert forall|i: int| #[trigger] is_pending(s, steps, i) implies now.contains(i) by {
        assert(i < n);
        assert(ticket_at(s, steps, i) == ticket_at(s, first, i));
        let l = choose|l: int| 0 <= l < earlier.len() && earlier[l] == i;
        assert(stands_for(s, first, earlier[l], before[l]));
        assert(l != p);
        if l < p {
            assert(now[l] == i);
        } else {
            assert(now[l - 1] == i);
        }
    }
}

} // verus!
