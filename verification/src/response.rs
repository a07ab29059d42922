//! The answer to a federation transaction.

use vstd::prelude::*;

verus! {

/// How the processing of one event of a transaction ended: `Err` carries the message that is
/// sent back for it.
pub struct PduOutcome {
    /// The identifier of the event.
    pub event_id: String,
    /// `Ok`, or why the event was not accepted.
    pub outcome: Result<(), String>,
}

impl View for PduOutcome {
    type V = (Seq<char>, Result<(), Seq<char>>);

    open spec fn view(&self) -> (Seq<char>, Result<(), Seq<char>>) {
        (
            self.event_id@,
            match self.outcome {
                Ok(_) => Ok(()),
                Err(message) => Err(message@),
            },
        )
    }
}

/// The answer to one federation transaction: one outcome for each event that it carried.
pub struct Response {
    /// The outcomes.
    pub pdus: Vec<PduOutcome>,
}

impl View for Response {
    type V = Seq<(Seq<char>, Result<(), Seq<char>>)>;

    open spec fn view(&self) -> Seq<(Seq<char>, Result<(), Seq<char>>)> {
        self.pdus@.map_values(|pdu: PduOutcome| pdu@)
    }
}

impl Clone for PduOutcome {
    fn clone(&self) -> (copy: Self)
        ensures
            copy@ == self@,
            copy.event_id@ == self.event_id@,
            copy.outcome is Ok <==> self.outcome is Ok,
            copy.outcome matches Err(message) ==> message@ == self.outcome->Err_0@,
    {
        let outcome = match &self.outcome {
            Ok(_) => Ok(()),
            Err(message) => Err(message.clone()),
        };
        PduOutcome { event_id: self.event_id.clone(), outcome }
    }
}

impl Clone for Response {
    fn clone(&self) -> (copy: Self)
        ensures
            copy@ == self@,
            copy.pdus@.len() == self.pdus@.len(),
            forall|i: int|
                0 <= i < self.pdus@.len() ==> (#[trigger] copy.pdus@[i])@ == self.pdus@[i]@,
    {
        let mut pdus: Vec<PduOutcome> = Vec::new();
        let mut i: usize = 0;
        while i < self.pdus.len()
            invariant
                i <= self.pdus.len(),
                pdus.len() == i,
                forall|j: int| 0 <= j < i ==> (#[trigger] pdus@[j])@ == self.pdus@[j]@,
            decreases self.pdus.len() - i,
        {
            pdus.push(self.pdus[i].clone());
            i += 1;
        }
        let copy = Response { pdus };
        assert(copy@ =~= self@);
        copy
    }
}

/// The view of an answer leaves nothing out: two answers with the same view have the same events,
/// in the same order, with the same outcomes and messages.
pub proof fn law_view_tells_the_whole_answer(a: Response, b: Response)
    requires
        a@ == b@,
    ensures
        a.pdus@.len() == b.pdus@.len(),
        forall|i: int|
            0 <= i < a.pdus@.len() ==> {
                &&& (#[trigger] a.pdus@[i]).event_id@ == b.pdus@[i].event_id@
                &&& a.pdus@[i].outcome is Ok <==> b.pdus@[i].outcome is Ok
                &&& a.pdus@[i].outcome matches Err(message) ==> message@
                    == b.pdus@[i].outcome->Err_0@
            },
{
    assert(a@.len() == a.pdus@.len());
    assert(b@.len() == b.pdus@.len());
    assert forall|i: int| 0 <= i < a.pdus@.len() implies {
        &&& (#[trigger] a.pdus@[i]).event_id@ == b.pdus@[i].event_id@
        &&& a.pdus@[i].outcome is Ok <==> b.pdus@[i].outcome is Ok
        &&& a.pdus@[i].outcome matches Err(message) ==> message@ == b.pdus@[i].outcome->Err_0@
    } by {
        assert(a@[i] == a.pdus@[i]@);
        assert(b@[i] == b.pdus@[i]@);
    }
}

} // verus!
