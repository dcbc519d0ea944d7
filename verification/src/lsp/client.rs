//! The pending requests of one connection: which calls wait for an answer,
//! and which answer belongs to which call.

use super::response::LSPMessage;
use std::collections::HashMap;
use vstd::prelude::*;

verus! {

/// The text of an answer, where there is one.
pub open spec fn answer_view(answer: Option<String>) -> Option<Seq<char>> {
    match answer {
        Some(body) => Some(body@),
        None => None,
    }
}

/// Why a request cannot be registered.
#[derive(Debug, Clone, Copy, PartialEq, Eq, Structural)]
pub enum CorrelationError {
    /// A request with this id waits already.
    IdInUse,
}

/// What became of an incoming frame.
#[derive(Debug, Clone, Copy, PartialEq, Eq, Structural)]
pub enum Delivery {
    /// The frame could not be decoded, and was passed over.
    Skipped,
    /// The frame answers the request of this id, whose caller can go on.
    Resolved(i32),
    /// The frame is an answer that no request waits for, and was dropped.
    Dropped,
    /// The frame came without an id: it goes to the notification handler.
    Notification,
}

/// The pending requests of a connection, by their ids. A request is
/// pending from its registration until its answer is taken or the request
/// is withdrawn; in between, its answer arrives at most once.
#[derive(Debug)]
pub struct LSPClient {
    pending: HashMap<i32, Option<String>>,
}

/// The state after an answer with `id` and text `body` has arrived: a
/// request that waits under `id` without an answer has it now, and nothing
/// else has changed.
pub open spec fn spec_resolve(
    pending: Map<i32, Option<Seq<char>>>,
    id: i32,
    body: Seq<char>,
) -> Map<i32, Option<Seq<char>>> {
    if pending.contains_key(id) && pending[id] is None {
        pending.insert(id, Some(body))
    } else {
        pending
    }
}

/// The state after a run of answers has arrived, in their order.
pub open spec fn spec_resolve_all(
    pending: Map<i32, Option<Seq<char>>>,
    arrivals: Seq<(i32, Seq<char>)>,
) -> Map<i32, Option<Seq<char>>>
    decreases arrivals.len(),
{
    if arrivals.len() == 0 {
        pending
    } else {
        spec_resolve(
            spec_resolve_all(pending, arrivals.drop_last()),
            arrivals.last().0,
            arrivals.last().1,
        )
    }
}

/// What becomes of an incoming frame, of which the probe saw `msg`.
pub open spec fn spec_delivery(
    pending: Map<i32, Option<Seq<char>>>,
    msg: Option<LSPMessage>,
) -> Delivery {
    match msg {
        None => Delivery::Skipped,
        Some(m) => match m.id {
            Some(id) => if pending.contains_key(id) && pending[id] is None {
                Delivery::Resolved(id)
            } else {
                Delivery::Dropped
            },
            None => Delivery::Notification,
        },
    }
}

impl View for LSPClient {
    type V = Map<i32, Option<Seq<char>>>;

    closed spec fn view(&self) -> Map<i32, Option<Seq<char>>> {
        Map::new(|id: i32| self.pending@.contains_key(id), |id: i32| answer_view(self.pending@[id]))
    }
}

impl LSPClient {
    /// No request pending.
    pub fn new() -> (client: Self)
        ensures
            client@ == Map::<i32, Option<Seq<char>>>::empty(),
    {
        let client = LSPClient { pending: HashMap::new() };
        assert(client@ =~= Map::<i32, Option<Seq<char>>>::empty());
        client
    }

    /// Registers a request under `id`, before it is sent. An id under
    /// which a request is pending is refused: the caller makes a new one.
    pub fn register(&mut self, id: i32) -> (done: Result<(), CorrelationError>)
        ensures
            match done {
                Ok(_) => !old(self)@.contains_key(id) && final(self)@ == old(self)@.insert(id, None),
                Err(_) => old(self)@.contains_key(id) && final(self)@ == old(self)@,
            },
    {
        if self.pending.contains_key(&id) {
            return Err(CorrelationError::IdInUse);
        }
        self.pending.insert(id, None);
        assert(self@ =~= old(self)@.insert(id, None));
        Ok(())
    }

    /// Whether a request is pending under `id`.
    pub fn is_pending(&self, id: i32) -> (pending: bool)
        ensures
            pending == self@.contains_key(id),
    {
        self.pending.contains_key(&id)
    }

    /// Takes in the answer `body` to the request `id`. It goes to the
    /// request that is pending under `id`, if that has no answer yet; the
    /// result says whether it did. Any other answer is dropped.
    pub fn resolve_pending(&mut self, id: i32, body: String) -> (resolved: bool)
        ensures
            final(self)@ == spec_resolve(old(self)@, id, body@),
            resolved == (old(self)@.contains_key(id) && old(self)@[id] is None),
    {
        let waits = match self.pending.get(&id) {
            Some(answer) => answer.is_none(),
            None => false,
        };
        if waits {
            self.pending.insert(id, Some(body));
            assert(self@ =~= old(self)@.insert(id, Some(body@)));
        }
        waits
    }

    /// Takes out the answer to the request `id`, with which the request
    /// is done. Without an answer the request stays pending.
    pub fn take_response(&mut self, id: i32) -> (answer: Option<String>)
        ensures
            match answer {
                Some(body) => old(self)@.contains_key(id) && old(self)@[id] == Some(body@)
                    && final(self)@ == old(self)@.remove(id),
                None => !(old(self)@.contains_key(id) && old(self)@[id] is Some) && final(self)@
                    == old(self)@,
            },
    {
        let answered = match self.pending.get(&id) {
            Some(answer) => answer.is_some(),
            None => false,
        };
        if !answered {
            return None;
        }
        let taken = self.pending.remove(&id);
        assert(self@ =~= old(self)@.remove(id));
        match taken {
            Some(answer) => answer,
            None => None,
        }
    }

    /// Withdraws the request `id`, whether it has an answer or not: for a
    /// request that could not be sent, and for which no answer will come.
    /// An id under which nothing is pending changes nothing.
    pub fn forget(&mut self, id: i32)
        ensures
            final(self)@ == old(self)@.remove(id),
    {
        self.pending.remove(&id);
        assert(self@ =~= old(self)@.remove(id));
    }

    /// Decides what becomes of an incoming frame with the text `payload`.
    /// `msg` is what the probe saw of it, `None` where it could not be
    /// decoded.
    ///
    /// A frame with an id is an answer, and goes to the request that waits
    /// for it. A frame without an id is left to the notification handler.
    pub fn on_message(&mut self, msg: Option<&LSPMessage>, payload: String) -> (delivery: Delivery)
        ensures
            delivery == spec_delivery(
                old(self)@,
                match msg {
                    Some(m) => Some(*m),
                    None => None,
                },
            ),
            final(self)@ == match delivery {
                Delivery::Resolved(id) => old(self)@.insert(id, Some(payload@)),
                _ => old(self)@,
            },
    {
        match msg {
            None => Delivery::Skipped,
            Some(m) => {
                if m.is_response() {
                    match m.get_id() {
                        Some(id) => {
                            if self.resolve_pending(id, payload) {
                                Delivery::Resolved(id)
                            } else {
                                Delivery::Dropped
                            }
                        },
                        None => Delivery::Notification,
                    }
                } else {
                    Delivery::Notification
                }
            },
        }
    }
}

/// An answer never adds or removes a request.
pub proof fn lemma_resolve_all_keeps_requests(
    pending: Map<i32, Option<Seq<char>>>,
    arrivals: Seq<(i32, Seq<char>)>,
)
    ensures
        spec_resolve_all(pending, arrivals).dom() == pending.dom(),
    decreases arrivals.len(),
{
    if arrivals.len() > 0 {
        lemma_resolve_all_keeps_requests(pending, arrivals.drop_last());
        let before = spec_resolve_all(pending, arrivals.drop_last());
        assert(spec_resolve(before, arrivals.last().0, arrivals.last().1).dom() =~= before.dom());
    }
}

/// Each caller receives the answer to its own request: whatever answers
/// arrive, and in whatever order, a request that waits without an answer
/// ends up with the first answer that carries its id, and with no other.
pub proof fn lemma_answers_reach_their_callers(
    pending: Map<i32, Option<Seq<char>>>,
    arrivals: Seq<(i32, Seq<char>)>,
    k: int,
)
    requires
        0 <= k < arrivals.len(),
        pending.contains_key(arrivals[k].0),
        pending[arrivals[k].0] is None,
        forall|j: int| 0 <= j < k ==> (#[trigger] arrivals[j]).0 != arrivals[k].0,
    ensures
        spec_resolve_all(pending, arrivals).contains_key(arrivals[k].0),
        spec_resolve_all(pending, arrivals)[arrivals[k].0] == Some(arrivals[k].1),
    decreases arrivals.len(),
{
    let id = arrivals[k].0;
    let init = arrivals.drop_last();
    if k == arrivals.len() - 1 {
        lemma_unanswered_stays_pending(pending, init, id);
    } else {
        assert(init[k] == arrivals[k]);
        assert forall|j: int| 0 <= j < k implies (#[trigger] init[j]).0 != init[k].0 by {
            assert(init[j] == arrivals[j]);
        }
        lemma_answers_reach_their_callers(pending, init, k);
    }
}

/// A request whose id no answer carries stays as it is.
pub proof fn lemma_unanswered_stays_pending(
    pending: Map<i32, Option<Seq<char>>>,
    arrivals: Seq<(i32, Seq<char>)>,
    id: i32,
)
    requires
        pending.contains_key(id),
        forall|j: int| 0 <= j < arrivals.len() ==> (#[trigger] arrivals[j]).0 != id,
    ensures
        spec_resolve_all(pending, arrivals).contains_key(id),
        spec_resolve_all(pending, arrivals)[id] == pending[id],
    decreases arrivals.len(),
{
    if arrivals.len() > 0 {
        let init = arrivals.drop_last();
        assert forall|j: int| 0 <= j < init.len() implies (#[trigger] init[j]).0 != id by {
            assert(init[j] == arrivals[j]);
        }
        lemma_unanswered_stays_pending(pending, init, id);
        assert(arrivals.last() == arrivals[arrivals.len() - 1]);
    }
}

/// A request that is done leaves the pending requests as they were before
/// it was registered, whether it was withdrawn without an answer or its
/// answer arrived and was taken: what is kept does not grow with the
/// calls that are over.
pub proof fn lemma_finished_request_leaves(
    pending: Map<i32, Option<Seq<char>>>,
    id: i32,
    body: Seq<char>,
)
    requires
        !pending.contains_key(id),
    ensures
        pending.insert(id, None).remove(id) == pending,
        spec_resolve(pending.insert(id, None), id, body)[id] == Some(body),
        spec_resolve(pending.insert(id, None), id, body).remove(id) == pending,
{
    assert(pending.insert(id, None).remove(id) =~= pending);
    assert(spec_resolve(pending.insert(id, None), id, body).remove(id) =~= pending);
}

} // verus!
