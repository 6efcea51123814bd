//! Importing a shared trace into another dataflow: a source that drains a
//! listener's queue, sends each batch at its time, and keeps a set of
//! capabilities that follows the frontiers the queue reports.

use vstd::prelude::*;

use crate::agent::{Event, Listener, SharedTrace};
use crate::batch::Batch;
use crate::frontier::{copy_frontier, MINIMUM};

verus! {

/// Some capability in `caps` is at or before `t`.
pub open spec fn covered(caps: Seq<u64>, t: u64) -> bool {
    exists|i: int| 0 <= i < caps.len() && caps[i] <= t
}

/// The events can be replayed starting from the capabilities `caps`: each
/// batch's time, and each time of each frontier, is covered by the
/// capabilities held when it arrives; after an event, those are its frontier.
pub open spec fn replayable(caps: Seq<u64>, events: Seq<Event>) -> bool
    decreases events.len(),
{
    if events.len() == 0 {
        true
    } else {
        let e = events[0];
        &&& (e.data matches Some((t, _)) ==> covered(caps, t))
        &&& (forall|j: int| 0 <= j < e.frontier@.len() ==> covered(caps, #[trigger] e.frontier@[j]))
        &&& replayable(e.frontier@, events.skip(1))
    }
}

/// The batches that `events` carry, each with its time, in order.
pub open spec fn carried(events: Seq<Event>) -> Seq<(u64, Batch)>
    decreases events.len(),
{
    if events.len() == 0 {
        Seq::empty()
    } else {
        match events[0].data {
            Some(d) => seq![d] + carried(events.skip(1)),
            None => carried(events.skip(1)),
        }
    }
}

/// The capabilities held after `events`, starting from `caps`.
pub open spec fn held_after(caps: Seq<u64>, events: Seq<Event>) -> Seq<u64> {
    if events.len() == 0 {
        caps
    } else {
        events.last().frontier@
    }
}

/// A capability in `caps` at or before `t`, if there is one.
pub fn covering(caps: &Vec<u64>, t: u64) -> (r: Option<u64>)
    ensures
        r is Some <==> covered(caps@, t),
        r matches Some(c) ==> c <= t && caps@.contains(c),
{
    let mut i: usize = 0;
    while i < caps.len()
        invariant
            i <= caps@.len(),
            forall|j: int| 0 <= j < i ==> caps@[j] > t,
        decreases caps@.len() - i,
    {
        if caps[i] <= t {
            assert(caps@[i as int] == caps[i as int]);
            return Some(caps[i]);
        }
        i = i + 1;
    }
    None
}

/// The state of an imported trace's source: the capabilities it holds.
pub struct ImportState {
    capabilities: Vec<u64>,
}

impl ImportState {
    pub closed spec fn capabilities_spec(&self) -> Seq<u64> {
        self.capabilities@
    }

    /// A source that holds a capability at the least time.
    pub fn new() -> (r: Self)
        ensures
            r.capabilities_spec() == seq![MINIMUM],
    {
        ImportState { capabilities: vec![MINIMUM] }
    }

    pub fn capabilities(&self) -> (r: &Vec<u64>)
        ensures
            r@ == self.capabilities_spec(),
    {
        &self.capabilities
    }

    /// One scheduling step: drains the listener's queue, returning each batch
    /// with the capability it is sent under and the time to send it at, and
    /// moves the capabilities to the last frontier drained.
    pub fn step(&mut self, shared: &mut SharedTrace, listener: &Listener) -> (r: Vec<
        (u64, u64, Batch),
    >)
        requires
            old(shared).wf(),
            old(shared).listener_live(listener.id()),
            replayable(old(self).capabilities_spec(), old(shared).queue(listener.id())),
        ensures
            final(shared).wf(),
            final(shared).queue(listener.id()).len() == 0,
            r@.len() == carried(old(shared).queue(listener.id())).len(),
            forall|i: int|
                0 <= i < r@.len() ==> {
                    &&& (#[trigger] r@[i]).1 == carried(old(shared).queue(listener.id()))[i].0
                    &&& r@[i].2 == carried(old(shared).queue(listener.id()))[i].1
                    &&& r@[i].0 <= r@[i].1
                },
            final(self).capabilities_spec() == held_after(
                old(self).capabilities_spec(),
                old(shared).queue(listener.id()),
            ),
            final(shared).trace_spec() == old(shared).trace_spec(),
            final(shared).listener_live(listener.id()),
    {
        let ghost q0 = shared.queue(listener.id());
        let mut out: Vec<(u64, u64, Batch)> = Vec::new();
        let ghost mut k: int = 0;
        let ghost mut sent: Seq<(u64, Batch)> = Seq::empty();
        assert(q0.skip(0) =~= q0);
        assert(q0.take(0) =~= Seq::<Event>::empty());
        assert(sent + carried(q0) =~= carried(q0));
        loop
            invariant
                shared.wf(),
                shared.listener_live(listener.id()),
                0 <= k <= q0.len(),
                shared.queue(listener.id()) == q0.skip(k),
                replayable(self.capabilities@, q0.skip(k)),
                sent + carried(q0.skip(k)) == carried(q0),
                out@.len() == sent.len(),
                forall|i: int|
                    0 <= i < out@.len() ==> {
                        &&& (#[trigger] out@[i]).1 == sent[i].0
                        &&& out@[i].2 == sent[i].1
                        &&& out@[i].0 <= out@[i].1
                    },
                self.capabilities@ == held_after(old(self).capabilities@, q0.take(k)),
                shared.trace_spec() == old(shared).trace_spec(),
            ensures
                shared.wf(),
                shared.listener_live(listener.id()),
                shared.queue(listener.id()).len() == 0,
                sent == carried(q0),
                out@.len() == sent.len(),
                forall|i: int|
                    0 <= i < out@.len() ==> {
                        &&& (#[trigger] out@[i]).1 == sent[i].0
                        &&& out@[i].2 == sent[i].1
                        &&& out@[i].0 <= out@[i].1
                    },
                self.capabilities@ == held_after(old(self).capabilities@, q0),
                shared.trace_spec() == old(shared).trace_spec(),
            decreases q0.len() - k,
        {
            let ghost rest = q0.skip(k);
            let next = listener.next(shared);
            match next {
                None => {
                    assert(k == q0.len());
                    assert(q0.take(k) =~= q0);
                    assert(q0.skip(k) =~= Seq::<Event>::empty());
                    assert(carried(Seq::<Event>::empty()) == Seq::<(u64, Batch)>::empty());
                    assert(sent =~= sent + carried(q0.skip(k)));
                    break;
                },
                Some(event) => {
                    assert(rest[0] == event);
                    assert(rest.skip(1) =~= q0.skip(k + 1));
                    let Event { frontier, data } = event;
                    match data {
                        Some((time, batch)) => {
                            let cap = covering(&self.capabilities, time);
                            let c = cap.unwrap();
                            proof {
                                assert(carried(rest) == seq![(time, batch)] + carried(rest.skip(1)));
                                assert(sent.push((time, batch)) + carried(rest.skip(1)) =~= sent
                                    + carried(rest));
                                sent = sent.push((time, batch));
                            }
                            out.push((c, time, batch));
                        },
                        None => {
                            assert(carried(rest) == carried(rest.skip(1)));
                        },
                    }
                    self.capabilities = copy_frontier(&frontier);
                    proof {
                        assert(q0.take(k + 1).last() == rest[0]);
                        k = k + 1;
                    }
                },
            }
        }
        out
    }
}

} // verus!
