//! Shared access to one trace: a single writer that appends to it, and any
//! number of readers, each holding its own frontiers. The trace may compact
//! only as far as every live reader allows: its frontiers are the meet of the
//! readers' holds. Readers may also listen for the batches the writer seals,
//! starting with a replay of the trace's history.

use std::collections::VecDeque;

use vstd::prelude::*;

use crate::batch::Batch;
use crate::consolidate::magnitude;
use crate::frontier::{
    beyond, copy_frontier, dominates, frontier_dominates, frontier_meet, is_frontier, meet, MINIMUM,
};
use crate::trace::{boundary, has_mergeable_boundary, is_cut, Spine, TraceCursor};

verus! {

/// The meet of a list of frontiers: the times at or beyond it are those at or
/// beyond any of them. A reader that holds nothing holds `[]`.
pub open spec fn meet_all(fs: Seq<Vec<u64>>) -> Seq<u64>
    decreases fs.len(),
{
    if fs.len() == 0 {
        Seq::empty()
    } else {
        meet(meet_all(fs.drop_last()), fs.last()@)
    }
}

/// What a listener receives each time the writer seals: the frontier the
/// trace has reached, and the batch sealed with the time it was sealed at.
pub struct Event {
    pub frontier: Vec<u64>,
    pub data: Option<(u64, Batch)>,
}

/// The event `e` says that the trace reached `frontier`, with `data`.
pub open spec fn carries(e: Event, frontier: Seq<u64>, data: Option<(u64, Batch)>) -> bool {
    &&& e.frontier@ == frontier
    &&& match data {
        None => e.data is None,
        Some((t, b)) => match e.data {
            Some((t2, b2)) => t2 == t && b2.same_as(&b),
            None => false,
        },
    }
}

pub struct Listening {
    queue: VecDeque<Event>,
    live: bool,
}

/// One trace with its readers' holds and its listeners' queues. A dropped
/// reader holds nothing (`[]`).
pub struct SharedTrace {
    trace: Spine,
    advance: Vec<Vec<u64>>,
    through: Vec<Vec<u64>>,
    live: Vec<bool>,
    listeners: Vec<Listening>,
    sealed: Vec<u64>,
    writer_live: bool,
}

/// A reader of a shared trace.
pub struct TraceAgent {
    index: usize,
}

/// The one writer of a shared trace.
pub struct TraceWriter {
    unique: (),
}

/// A queue of events that a reader asked for.
pub struct Listener {
    index: usize,
}

impl SharedTrace {
    pub closed spec fn trace_spec(&self) -> Spine {
        self.trace
    }

    pub closed spec fn agent_count(&self) -> nat {
        self.live@.len()
    }

    pub closed spec fn agent_live(&self, i: int) -> bool {
        0 <= i < self.live@.len() && self.live@[i]
    }

    /// The advance frontiers that the readers hold, one for each reader.
    pub closed spec fn advance_holds(&self) -> Seq<Vec<u64>> {
        self.advance@
    }

    /// The distinguish frontiers that the readers hold.
    pub closed spec fn through_holds(&self) -> Seq<Vec<u64>> {
        self.through@
    }

    pub open spec fn advance_hold(&self, i: int) -> Seq<u64> {
        self.advance_holds()[i]@
    }

    pub open spec fn through_hold(&self, i: int) -> Seq<u64> {
        self.through_holds()[i]@
    }

    pub closed spec fn listener_count(&self) -> nat {
        self.listeners@.len()
    }

    pub closed spec fn listener_live(&self, l: int) -> bool {
        0 <= l < self.listeners@.len() && self.listeners@[l].live
    }

    pub closed spec fn queue(&self, l: int) -> Seq<Event> {
        self.listeners@[l].queue@
    }

    pub closed spec fn writer_live(&self) -> bool {
        self.writer_live
    }

    /// The frontier most recently sealed.
    pub closed spec fn sealed(&self) -> Seq<u64> {
        self.sealed@
    }

    /// The readers and their holds are as in `old`.
    pub closed spec fn agents_unchanged(&self, old: &SharedTrace) -> bool {
        &&& self.advance == old.advance
        &&& self.through == old.through
        &&& self.live == old.live
    }

    /// The listeners and their queues are as in `old`.
    pub closed spec fn listeners_unchanged(&self, old: &SharedTrace) -> bool {
        &&& self.listeners == old.listeners
        &&& self.sealed == old.sealed
        &&& self.writer_live == old.writer_live
    }

    pub open spec fn wf(&self) -> bool {
        &&& self.trace_spec().wf()
        &&& self.advance_holds().len() == self.agent_count()
        &&& self.through_holds().len() == self.agent_count()
        &&& forall|i: int|
            0 <= i < self.agent_count() ==> is_frontier(#[trigger] self.advance_holds()[i]@)
        &&& forall|i: int|
            0 <= i < self.agent_count() ==> is_frontier(#[trigger] self.through_holds()[i]@)
        &&& forall|i: int|
            0 <= i < self.agent_count() && !#[trigger] self.agent_live(i) ==> self.advance_hold(i)
                == Seq::<u64>::empty() && self.through_hold(i) == Seq::<u64>::empty()
        &&& self.trace_spec().advance_spec() == meet_all(self.advance_holds())
        &&& self.trace_spec().through_spec() == meet_all(self.through_holds())
        &&& is_frontier(self.sealed())
        &&& forall|i: int| #[trigger] self.agent_live(i) ==> 0 <= i < self.agent_count()
        &&& forall|l: int| #[trigger] self.listener_live(l) ==> 0 <= l < self.listener_count()
    }

    /// The trace, for reading.
    pub fn trace(&self) -> (r: &Spine)
        ensures
            *r == self.trace_spec(),
    {
        &self.trace
    }

    /// Sets the trace's frontiers to the meet of the readers' holds.
    fn refresh(&mut self)
        requires
            old(self).trace.wf(),
            forall|i: int|
                0 <= i < old(self).advance@.len() ==> is_frontier(#[trigger] old(self).advance@[i]@),
            forall|i: int|
                0 <= i < old(self).through@.len() ==> is_frontier(#[trigger] old(self).through@[i]@),
            dominates(meet_all(old(self).advance@), old(self).trace.advance_spec()),
            dominates(meet_all(old(self).through@), old(self).trace.through_spec()),
        ensures
            final(self).trace.wf(),
            final(self).trace.advance_spec() == meet_all(old(self).advance@),
            final(self).trace.through_spec() == meet_all(old(self).through@),
            final(self).trace.batches_spec() == old(self).trace.batches_spec(),
            final(self).agents_unchanged(old(self)),
            final(self).listeners_unchanged(old(self)),
    {
        let advance = meet_of(&self.advance);
        let through = meet_of(&self.through);
        self.trace.advance_by(&advance);
        self.trace.distinguish_since(&through);
    }
}

proof fn lemma_wf_intro(s: SharedTrace)
    requires
        s.trace.wf(),
        s.advance@.len() == s.live@.len(),
        s.through@.len() == s.live@.len(),
        forall|i: int| 0 <= i < s.advance@.len() ==> is_frontier(#[trigger] s.advance@[i]@),
        forall|i: int| 0 <= i < s.through@.len() ==> is_frontier(#[trigger] s.through@[i]@),
        forall|i: int|
            0 <= i < s.live@.len() && !#[trigger] s.live@[i] ==> s.advance@[i]@ == Seq::<u64>::empty()
                && s.through@[i]@ == Seq::<u64>::empty(),
        s.trace.advance_spec() == meet_all(s.advance@),
        s.trace.through_spec() == meet_all(s.through@),
        is_frontier(s.sealed@),
    ensures
        s.wf(),
{
    assert forall|i: int| 0 <= i < s.agent_count() && !#[trigger] s.agent_live(i) implies s.advance_hold(i)
        == Seq::<u64>::empty() && s.through_hold(i) == Seq::<u64>::empty() by {
        assert(!s.live@[i]);
    }
}

/// The raw facts that well-formedness gives.
proof fn lemma_wf_elim(s: SharedTrace)
    requires
        s.wf(),
    ensures
        s.trace.wf(),
        s.advance@.len() == s.live@.len(),
        s.through@.len() == s.live@.len(),
        forall|i: int| 0 <= i < s.advance@.len() ==> is_frontier(#[trigger] s.advance@[i]@),
        forall|i: int| 0 <= i < s.through@.len() ==> is_frontier(#[trigger] s.through@[i]@),
        forall|i: int|
            0 <= i < s.live@.len() && !#[trigger] s.live@[i] ==> s.advance@[i]@ == Seq::<u64>::empty()
                && s.through@[i]@ == Seq::<u64>::empty(),
        s.trace.advance_spec() == meet_all(s.advance@),
        s.trace.through_spec() == meet_all(s.through@),
        is_frontier(s.sealed@),
{
    assert forall|i: int| 0 <= i < s.advance@.len() implies is_frontier(#[trigger] s.advance@[i]@) by {
        assert(is_frontier(s.advance_holds()[i]@));
    }
    assert forall|i: int| 0 <= i < s.through@.len() implies is_frontier(#[trigger] s.through@[i]@) by {
        assert(is_frontier(s.through_holds()[i]@));
    }
    assert forall|i: int|
        0 <= i < s.live@.len() && !#[trigger] s.live@[i] implies s.advance@[i]@ == Seq::<u64>::empty()
            && s.through@[i]@ == Seq::<u64>::empty() by {
        assert(!s.agent_live(i));
    }
}

/// Well-formedness does not depend on the listeners.
proof fn lemma_wf_frame(a: SharedTrace, b: SharedTrace)
    requires
        a.wf(),
        b.trace == a.trace,
        b.advance == a.advance,
        b.through == a.through,
        b.live == a.live,
        b.sealed == a.sealed,
    ensures
        b.wf(),
{
    assert(b.advance_holds() == a.advance_holds());
    assert(b.through_holds() == a.through_holds());
    assert(b.agent_count() == a.agent_count());
    assert forall|i: int| 0 <= i < b.agent_count() implies is_frontier(#[trigger] b.advance_holds()[i]@) by {
        assert(is_frontier(a.advance_holds()[i]@));
    }
    assert forall|i: int| 0 <= i < b.agent_count() implies is_frontier(#[trigger] b.through_holds()[i]@) by {
        assert(is_frontier(a.through_holds()[i]@));
    }
    assert forall|i: int| 0 <= i < b.agent_count() && !#[trigger] b.agent_live(i) implies b.advance_hold(i)
        == Seq::<u64>::empty() && b.through_hold(i) == Seq::<u64>::empty() by {
        assert(!a.agent_live(i));
    }
}

/// The meet of a list of frontiers.
fn meet_of(fs: &Vec<Vec<u64>>) -> (r: Vec<u64>)
    requires
        forall|i: int| 0 <= i < fs@.len() ==> is_frontier(#[trigger] fs@[i]@),
    ensures
        r@ == meet_all(fs@),
        is_frontier(r@),
{
    let mut r: Vec<u64> = Vec::new();
    let mut i: usize = 0;
    while i < fs.len()
        invariant
            i <= fs@.len(),
            forall|j: int| 0 <= j < fs@.len() ==> is_frontier(#[trigger] fs@[j]@),
            r@ == meet_all(fs@.take(i as int)),
            is_frontier(r@),
        decreases fs@.len() - i,
    {
        assert(fs@.take(i + 1).drop_last() =~= fs@.take(i as int));
        r = frontier_meet(&r, &fs[i]);
        i = i + 1;
    }
    assert(fs@.take(fs@.len() as int) =~= fs@);
    r
}

impl TraceAgent {
    pub closed spec fn id(&self) -> int {
        self.index as int
    }

    /// Shares `trace` between a first reader, which holds the trace's current
    /// frontiers, and its writer.
    pub fn new(trace: Spine) -> (r: (SharedTrace, TraceAgent, TraceWriter))
        requires
            trace.wf(),
        ensures
            r.0.wf(),
            r.0.trace_spec() == trace,
            r.0.agent_count() == 1,
            r.0.agent_live(r.1.id()),
            r.0.advance_hold(r.1.id()) == trace.advance_spec(),
            r.0.through_hold(r.1.id()) == trace.through_spec(),
            r.0.listener_count() == 0,
            r.0.writer_live(),
            r.0.sealed() == seq![MINIMUM],
    {
        let mut advance: Vec<Vec<u64>> = Vec::new();
        advance.push(copy_frontier(trace.advance_frontier()));
        let mut through: Vec<Vec<u64>> = Vec::new();
        through.push(copy_frontier(trace.distinguish_frontier()));
        let mut live: Vec<bool> = Vec::new();
        live.push(true);
        let shared = SharedTrace {
            trace,
            advance,
            through,
            live,
            listeners: Vec::new(),
            sealed: vec![MINIMUM],
            writer_live: true,
        };
        proof {
            assert(shared.advance@.drop_last() =~= Seq::<Vec<u64>>::empty());
            assert(shared.through@.drop_last() =~= Seq::<Vec<u64>>::empty());
            assert(meet_all(Seq::<Vec<u64>>::empty()) == Seq::<u64>::empty());
            assert(meet_all(shared.advance@) == meet(meet_all(shared.advance@.drop_last()), shared.advance@.last()@));
            assert(meet_all(shared.through@) == meet(meet_all(shared.through@.drop_last()), shared.through@.last()@));
            lemma_wf_intro(shared);
        }
        (shared, TraceAgent { index: 0 }, TraceWriter { unique: () })
    }

    /// Moves this reader's advance hold forward to `frontier`; a frontier
    /// behind the current hold is ignored, so the hold never goes back.
    pub fn advance_by(&self, shared: &mut SharedTrace, frontier: &Vec<u64>)
        requires
            old(shared).wf(),
            old(shared).agent_live(self.id()),
            is_frontier(frontier@),
        ensures
            final(shared).wf(),
            final(shared).advance_hold(self.id()) == if dominates(
                frontier@,
                old(shared).advance_hold(self.id()),
            ) {
                frontier@
            } else {
                old(shared).advance_hold(self.id())
            },
            dominates(final(shared).advance_hold(self.id()), old(shared).advance_hold(self.id())),
            final(shared).advance_holds().len() == old(shared).advance_holds().len(),
            forall|i: int|
                0 <= i < old(shared).agent_count() && i != self.id() ==> #[trigger] final(shared).advance_hold(i) == old(shared).advance_hold(i),
            final(shared).through_holds() == old(shared).through_holds(),
            forall|i: int| #[trigger] final(shared).agent_live(i) == old(shared).agent_live(i),
            final(shared).agent_count() == old(shared).agent_count(),
            final(shared).trace_spec().batches_spec() == old(shared).trace_spec().batches_spec(),
            final(shared).listeners_unchanged(old(shared)),
    {
        let i = self.index;
        if frontier_dominates(frontier, &shared.advance[i]) {
            let ghost before = shared.advance@;
            proof {
                lemma_wf_elim(*shared);
            }
            shared.advance.set(i, copy_frontier(frontier));
            proof {
                lemma_meet_all_pointwise(before, shared.advance@);
                lemma_meet_all_pointwise(shared.through@, shared.through@);
            }
            shared.refresh();
            proof {
                lemma_wf_intro(*shared);
            }
        }
    }

    pub fn advance_frontier(&self, shared: &SharedTrace) -> (r: Vec<u64>)
        requires
            shared.wf(),
            shared.agent_live(self.id()),
        ensures
            r@ == shared.advance_hold(self.id()),
    {
        copy_frontier(&shared.advance[self.index])
    }

    /// Moves this reader's distinguish hold forward to `frontier`; a frontier
    /// behind the current hold is ignored.
    pub fn distinguish_since(&self, shared: &mut SharedTrace, frontier: &Vec<u64>)
        requires
            old(shared).wf(),
            old(shared).agent_live(self.id()),
            is_frontier(frontier@),
        ensures
            final(shared).wf(),
            final(shared).through_hold(self.id()) == if dominates(
                frontier@,
                old(shared).through_hold(self.id()),
            ) {
                frontier@
            } else {
                old(shared).through_hold(self.id())
            },
            dominates(final(shared).through_hold(self.id()), old(shared).through_hold(self.id())),
            final(shared).through_holds().len() == old(shared).through_holds().len(),
            forall|i: int|
                0 <= i < old(shared).agent_count() && i != self.id() ==> #[trigger] final(shared).through_hold(i) == old(shared).through_hold(i),
            final(shared).advance_holds() == old(shared).advance_holds(),
            forall|i: int| #[trigger] final(shared).agent_live(i) == old(shared).agent_live(i),
            final(shared).agent_count() == old(shared).agent_count(),
            final(shared).trace_spec().batches_spec() == old(shared).trace_spec().batches_spec(),
            final(shared).listeners_unchanged(old(shared)),
    {
        let i = self.index;
        if frontier_dominates(frontier, &shared.through[i]) {
            let ghost before = shared.through@;
            proof {
                lemma_wf_elim(*shared);
            }
            shared.through.set(i, copy_frontier(frontier));
            proof {
                lemma_meet_all_pointwise(before, shared.through@);
                lemma_meet_all_pointwise(shared.advance@, shared.advance@);
            }
            shared.refresh();
            proof {
                lemma_wf_intro(*shared);
            }
        }
    }

    pub fn distinguish_frontier(&self, shared: &SharedTrace) -> (r: Vec<u64>)
        requires
            shared.wf(),
            shared.agent_live(self.id()),
        ensures
            r@ == shared.through_hold(self.id()),
    {
        copy_frontier(&shared.through[self.index])
    }

    /// A second reader that starts out holding what this one holds; the
    /// trace's frontiers do not change.
    pub fn clone(&self, shared: &mut SharedTrace) -> (r: TraceAgent)
        requires
            old(shared).wf(),
            old(shared).agent_live(self.id()),
        ensures
            final(shared).wf(),
            final(shared).agent_count() == old(shared).agent_count() + 1,
            r.id() == old(shared).agent_count(),
            final(shared).agent_live(r.id()),
            final(shared).advance_hold(r.id()) == old(shared).advance_hold(self.id()),
            final(shared).through_hold(r.id()) == old(shared).through_hold(self.id()),
            forall|i: int|
                0 <= i < old(shared).agent_count() ==> #[trigger] final(shared).agent_live(i)
                    == old(shared).agent_live(i) && final(shared).advance_hold(i) == old(shared).advance_hold(i) && final(shared).through_hold(i) == old(shared).through_hold(i),
            final(shared).trace_spec() == old(shared).trace_spec(),
            final(shared).listeners_unchanged(old(shared)),
    {
        let i = self.index;
        let a = copy_frontier(&shared.advance[i]);
        let t = copy_frontier(&shared.through[i]);
        let ghost a0 = shared.advance@;
        let ghost t0 = shared.through@;
        proof {
            lemma_wf_elim(*shared);
        }
        shared.advance.push(a);
        shared.through.push(t);
        shared.live.push(true);
        proof {
            assert(shared.advance@.drop_last() =~= a0);
            assert(shared.through@.drop_last() =~= t0);
            lemma_meet_all_below(a0, i as int);
            lemma_meet_all_below(t0, i as int);
            lemma_wf_intro(*shared);
        }
        TraceAgent { index: shared.live.len() - 1 }
    }

    /// Drops this reader: it holds nothing any more, which may let the
    /// trace's frontiers move forward.
    pub fn drop(self, shared: &mut SharedTrace)
        requires
            old(shared).wf(),
            old(shared).agent_live(self.id()),
        ensures
            final(shared).wf(),
            !final(shared).agent_live(self.id()),
            final(shared).advance_hold(self.id()) == Seq::<u64>::empty(),
            final(shared).through_hold(self.id()) == Seq::<u64>::empty(),
            forall|i: int|
                0 <= i < old(shared).agent_count() && i != self.id() ==> #[trigger] final(shared).agent_live(i) == old(shared).agent_live(i) && final(shared).advance_hold(i)
                    == old(shared).advance_hold(i) && final(shared).through_hold(i) == old(shared).through_hold(i),
            final(shared).agent_count() == old(shared).agent_count(),
            final(shared).trace_spec().batches_spec() == old(shared).trace_spec().batches_spec(),
            final(shared).listeners_unchanged(old(shared)),
    {
        let i = self.index;
        let ghost a0 = shared.advance@;
        let ghost t0 = shared.through@;
        proof {
            lemma_wf_elim(*shared);
        }
        shared.advance.set(i, Vec::new());
        shared.through.set(i, Vec::new());
        shared.live.set(i, false);
        proof {
            lemma_meet_all_pointwise(a0, shared.advance@);
            lemma_meet_all_pointwise(t0, shared.through@);
        }
        shared.refresh();
        proof {
            lemma_wf_intro(*shared);
        }
    }

    /// A cursor over the trace through `upper`, where that is a cut of the trace.
    pub fn cursor_through(&self, shared: &SharedTrace, upper: &Vec<u64>) -> (r: Option<
        TraceCursor,
    >)
        requires
            shared.wf(),
        ensures
            r is Some <==> is_cut(shared.trace_spec().batches_spec(), upper@),
            r matches Some(c) ==> c.batches <= shared.trace_spec().batches_spec().len() && (if upper@.len()
                == 0 {
                c.batches == shared.trace_spec().batches_spec().len()
            } else {
                boundary(shared.trace_spec().batches_spec(), c.batches as int) == upper@
            }),
    {
        shared.trace.cursor_through(upper)
    }

    /// The batches of the trace, oldest first.
    pub fn map_batches<'a>(&self, shared: &'a SharedTrace) -> (r: &'a Vec<Batch>)
        ensures
            r@ == shared.trace_spec().batches_spec(),
    {
        shared.trace.map_batches()
    }

    /// A new queue, holding first every batch already in the trace (each
    /// tagged with the least time), then the frontier last sealed; from then
    /// on it receives every event the writer seals. Where the writer is gone,
    /// the queue ends with the empty frontier instead.
    pub fn new_listener(&self, shared: &mut SharedTrace) -> (r: Listener)
        requires
            old(shared).wf(),
        ensures
            final(shared).wf(),
            r.id() == old(shared).listener_count(),
            final(shared).listener_count() == old(shared).listener_count() + 1,
            final(shared).listener_live(r.id()),
            is_replay(
                final(shared).queue(r.id()),
                old(shared).trace_spec().batches_spec(),
                if old(shared).writer_live() {
                    old(shared).sealed()
                } else {
                    Seq::<u64>::empty()
                },
            ),
            forall|l: int|
                0 <= l < old(shared).listener_count() ==> #[trigger] final(shared).queue(l)
                    == old(shared).queue(l) && final(shared).listener_live(l)
                    == old(shared).listener_live(l),
            final(shared).trace_spec() == old(shared).trace_spec(),
            final(shared).agents_unchanged(old(shared)),
            final(shared).writer_live() == old(shared).writer_live(),
            final(shared).sealed() == old(shared).sealed(),
    {
        let mut queue: VecDeque<Event> = VecDeque::new();
        let batches = shared.trace.map_batches();
        let mut i: usize = 0;
        while i < batches.len()
            invariant
                i <= batches@.len(),
                queue@.len() == i,
                forall|j: int|
                    0 <= j < i ==> carries(
                        #[trigger] queue@[j],
                        seq![MINIMUM],
                        Some((MINIMUM, batches@[j])),
                    ),
            decreases batches@.len() - i,
        {
            let first = vec![MINIMUM];
            assert(first@ =~= seq![MINIMUM]);
            queue.push_back(Event { frontier: first, data: Some((MINIMUM, batches[i].copy())) });
            i = i + 1;
        }
        let last = if shared.writer_live {
            copy_frontier(&shared.sealed)
        } else {
            Vec::new()
        };
        queue.push_back(Event { frontier: last, data: None });
        shared.listeners.push(Listening { queue, live: true });
        proof {
            lemma_wf_frame(*old(shared), *shared);
        }
        Listener { index: shared.listeners.len() - 1 }
    }
}

/// `q` begins with the replay of `batches` (each tagged with the least time)
/// followed by the frontier `reached`.
pub open spec fn is_replay(q: Seq<Event>, batches: Seq<Batch>, reached: Seq<u64>) -> bool {
    &&& q.len() == batches.len() + 1
    &&& forall|j: int|
        0 <= j < batches.len() ==> carries(#[trigger] q[j], seq![MINIMUM], Some((MINIMUM, batches[j])))
    &&& carries(q[batches.len() as int], reached, None)
}

impl Listener {
    pub closed spec fn id(&self) -> int {
        self.index as int
    }

    /// Takes the oldest event from the queue.
    pub fn next(&self, shared: &mut SharedTrace) -> (r: Option<Event>)
        requires
            old(shared).wf(),
            old(shared).listener_live(self.id()),
        ensures
            final(shared).wf(),
            old(shared).queue(self.id()).len() == 0 ==> r is None && final(shared).queue(self.id())
                == old(shared).queue(self.id()),
            old(shared).queue(self.id()).len() > 0 ==> r == Some(old(shared).queue(self.id())[0])
                && final(shared).queue(self.id()) == old(shared).queue(self.id()).skip(1),
            final(shared).listener_live(self.id()),
            final(shared).listener_count() == old(shared).listener_count(),
            forall|l: int|
                0 <= l < old(shared).listener_count() && l != self.id() ==> #[trigger] final(
                    shared).queue(l) == old(shared).queue(l) && final(shared).listener_live(l)
                    == old(shared).listener_live(l),
            final(shared).trace_spec() == old(shared).trace_spec(),
            final(shared).agents_unchanged(old(shared)),
            final(shared).writer_live() == old(shared).writer_live(),
            final(shared).sealed() == old(shared).sealed(),
    {
        let l = self.index;
        let r = shared.listeners[l].queue.pop_front();
        proof {
            lemma_wf_frame(*old(shared), *shared);
        }
        assert(old(shared).queue(l as int).skip(1) =~= old(shared).queue(l as int).subrange(
            1,
            old(shared).queue(l as int).len() as int,
        ));
        r
    }

    /// Drops the listener: it receives nothing more.
    pub fn drop(self, shared: &mut SharedTrace)
        requires
            old(shared).wf(),
            old(shared).listener_live(self.id()),
        ensures
            final(shared).wf(),
            !final(shared).listener_live(self.id()),
            final(shared).listener_count() == old(shared).listener_count(),
            forall|l: int|
                0 <= l < old(shared).listener_count() && l != self.id() ==> #[trigger] final(
                    shared).queue(l) == old(shared).queue(l) && final(shared).listener_live(l)
                    == old(shared).listener_live(l),
            final(shared).trace_spec() == old(shared).trace_spec(),
            final(shared).agents_unchanged(old(shared)),
            final(shared).writer_live() == old(shared).writer_live(),
            final(shared).sealed() == old(shared).sealed(),
    {
        shared.listeners.set(self.index, Listening { queue: VecDeque::new(), live: false });
        proof {
            lemma_wf_frame(*old(shared), *shared);
        }
    }
}

impl TraceWriter {
    /// Publishes that the trace has reached `frontier`: every live listener
    /// receives the event, and the batch, where there is one, is appended to
    /// the trace; with no batch and the empty frontier the trace is closed.
    pub fn seal(&self, shared: &mut SharedTrace, frontier: &Vec<u64>, data: Option<(u64, Batch)>)
        requires
            old(shared).wf(),
            old(shared).writer_live(),
            is_frontier(frontier@),
            data matches Some((t, b)) ==> b.wf() && b.lower_spec()
                == old(shared).trace_spec().upper_spec() && old(shared).trace_spec().total_spec()
                + magnitude(b.updates@) <= i64::MAX,
        ensures
            final(shared).wf(),
            final(shared).listener_count() == old(shared).listener_count(),
            forall|l: int|
                0 <= l < old(shared).listener_count() ==> #[trigger] final(shared).listener_live(l)
                    == old(shared).listener_live(l),
            forall|l: int|
                #![trigger final(shared).queue(l)]
                0 <= l < old(shared).listener_count() && old(shared).listener_live(l) ==> {
                    &&& final(shared).queue(l).len() == old(shared).queue(l).len() + 1
                    &&& final(shared).queue(l).drop_last() == old(shared).queue(l)
                    &&& carries(final(shared).queue(l).last(), frontier@, data)
                },
            forall|l: int|
                0 <= l < old(shared).listener_count() && !old(shared).listener_live(l)
                    ==> #[trigger] final(shared).queue(l) == old(shared).queue(l),
            data matches Some((t, b)) ==> final(shared).trace_spec().batches_spec() == old(shared).trace_spec().batches_spec().push(b),
            data is None && frontier@.len() == 0 ==> final(shared).trace_spec().upper_spec()
                == Seq::<u64>::empty() && final(shared).trace_spec().batches_spec().drop_last() == old(shared).trace_spec().batches_spec()
                && final(shared).trace_spec().batches_spec().len() == old(
                shared).trace_spec().batches_spec().len() + 1
                && final(shared).trace_spec().batches_spec().last().updates@.len() == 0
                && final(shared).trace_spec().batches_spec().last().lower_spec() == old(
                shared).trace_spec().upper_spec(),
            data is None && frontier@.len() > 0 ==> final(shared).trace_spec().batches_spec()
                == old(shared).trace_spec().batches_spec(),
            final(shared).trace_spec().advance_spec() == old(shared).trace_spec().advance_spec(),
            final(shared).trace_spec().through_spec() == old(shared).trace_spec().through_spec(),
            final(shared).agents_unchanged(old(shared)),
            final(shared).writer_live(),
            final(shared).sealed() == frontier@,
            data matches Some((t, b)) ==> final(shared).trace_spec().total_spec() == old(
                shared).trace_spec().total_spec() + magnitude(b.updates@),
            data is None ==> final(shared).trace_spec().total_spec() == old(
                shared).trace_spec().total_spec(),
    {
        let n = shared.listeners.len();
        let mut l: usize = 0;
        while l < n
            invariant
                n == shared.listeners@.len(),
                l <= n,
                old(shared).wf(),
                shared.wf(),
                shared.trace == old(shared).trace,
                shared.advance == old(shared).advance,
                shared.through == old(shared).through,
                shared.live == old(shared).live,
                old(shared).listeners@.len() == n,
                shared.writer_live == old(shared).writer_live,
                shared.sealed == old(shared).sealed,
                forall|m: int| 0 <= m < n ==> #[trigger] shared.listeners@[m].live == old(shared).listeners@[m].live,
                forall|m: int|
                    #![trigger shared.listeners@[m]]
                    0 <= m < l && old(shared).listeners@[m].live ==> {
                        &&& shared.listeners@[m].queue@.len() == old(shared).listeners@[m].queue@.len() + 1
                        &&& shared.listeners@[m].queue@.drop_last() == old(shared).listeners@[m].queue@
                        &&& carries(shared.listeners@[m].queue@.last(), frontier@, data)
                    },
                forall|m: int|
                    #![trigger shared.listeners@[m]]
                    (l <= m < n || (0 <= m < n && !old(shared).listeners@[m].live))
                        ==> shared.listeners@[m].queue@ == old(shared).listeners@[m].queue@,
            decreases n - l,
        {
            if shared.listeners[l].live {
                let event = Event { frontier: copy_frontier(frontier), data: copy_data(&data) };
                let ghost before = shared.listeners@[l as int].queue@;
                shared.listeners[l].queue.push_back(event);
                assert(shared.listeners@[l as int].queue@.drop_last() =~= before);
            }
            proof {
                lemma_wf_frame(*old(shared), *shared);
            }
            l = l + 1;
        }
        shared.sealed = copy_frontier(frontier);
        proof {
            lemma_wf_elim(*old(shared));
        }
        match data {
            Some((_time, batch)) => {
                let r = shared.trace.insert(batch);
            },
            None => {
                if frontier.len() == 0 {
                    shared.trace.close();
                }
            },
        }
        proof {
            lemma_wf_intro(*shared);
        }
    }

    /// Does at most `fuel` units of merging work on the trace.
    pub fn exert(&self, shared: &mut SharedTrace, fuel: &mut usize) -> (r: Option<usize>)
        requires
            old(shared).wf(),
        ensures
            final(shared).wf(),
            *final(fuel) <= *old(fuel),
            final(shared).trace_spec().upper_spec() == old(shared).trace_spec().upper_spec(),
            r is None ==> final(shared).trace_spec().batches_spec() == old(
                shared).trace_spec().batches_spec(),
            r matches Some(i) ==> crate::trace::merged_at(
                old(shared).trace_spec().batches_spec(),
                final(shared).trace_spec().batches_spec(),
                i as int,
                old(shared).trace_spec().advance_spec(),
            ),
            *old(fuel) > 0 && (old(shared).trace_spec().merging_spec() || has_mergeable_boundary(
                old(shared).trace_spec().batches_spec(),
                old(shared).trace_spec().through_spec(),
            )) ==> r is Some || *final(fuel) < *old(fuel),
            final(shared).trace_spec().advance_spec() == old(shared).trace_spec().advance_spec(),
            final(shared).trace_spec().through_spec() == old(shared).trace_spec().through_spec(),
            final(shared).agents_unchanged(old(shared)),
            final(shared).listeners_unchanged(old(shared)),
    {
        proof {
            lemma_wf_elim(*shared);
        }
        let r = shared.trace.exert(fuel);
        proof {
            lemma_wf_intro(*shared);
        }
        r
    }

    /// Drops the writer: every live listener receives the empty frontier, and
    /// listeners made from now on start out finished.
    pub fn drop(self, shared: &mut SharedTrace)
        requires
            old(shared).wf(),
            old(shared).writer_live(),
        ensures
            final(shared).wf(),
            !final(shared).writer_live(),
            final(shared).listener_count() == old(shared).listener_count(),
            forall|l: int|
                #![trigger final(shared).queue(l)]
                0 <= l < old(shared).listener_count() && old(shared).listener_live(l) ==> {
                    &&& final(shared).queue(l).drop_last() == old(shared).queue(l)
                    &&& final(shared).queue(l).len() == old(shared).queue(l).len() + 1
                    &&& carries(final(shared).queue(l).last(), Seq::<u64>::empty(), None)
                },
            final(shared).trace_spec() == old(shared).trace_spec(),
            final(shared).agents_unchanged(old(shared)),
    {
        let n = shared.listeners.len();
        let mut l: usize = 0;
        while l < n
            invariant
                n == shared.listeners@.len(),
                l <= n,
                old(shared).wf(),
                shared.wf(),
                shared.trace == old(shared).trace,
                shared.advance == old(shared).advance,
                shared.through == old(shared).through,
                shared.live == old(shared).live,
                old(shared).listeners@.len() == n,
                shared.writer_live == old(shared).writer_live,
                shared.sealed == old(shared).sealed,
                forall|m: int| 0 <= m < n ==> #[trigger] shared.listeners@[m].live == old(shared).listeners@[m].live,
                forall|m: int|
                    #![trigger shared.listeners@[m]]
                    0 <= m < l && old(shared).listeners@[m].live ==> {
                        &&& shared.listeners@[m].queue@.len() == old(shared).listeners@[m].queue@.len() + 1
                        &&& shared.listeners@[m].queue@.drop_last() == old(shared).listeners@[m].queue@
                        &&& carries(shared.listeners@[m].queue@.last(), Seq::<u64>::empty(), None)
                    },
                forall|m: int|
                    #![trigger shared.listeners@[m]]
                    l <= m < n ==> shared.listeners@[m].queue@ == old(shared).listeners@[m].queue@,
            decreases n - l,
        {
            if shared.listeners[l].live {
                let ghost before = shared.listeners@[l as int].queue@;
                shared.listeners[l].queue.push_back(Event { frontier: Vec::new(), data: None });
                assert(shared.listeners@[l as int].queue@.drop_last() =~= before);
            }
            proof {
                lemma_wf_frame(*old(shared), *shared);
            }
            l = l + 1;
        }
        shared.writer_live = false;
        proof {
            lemma_wf_frame(*old(shared), *shared);
        }
    }
}

fn copy_data(data: &Option<(u64, Batch)>) -> (r: Option<(u64, Batch)>)
    ensures
        match *data {
            None => r is None,
            Some((t, b)) => match r {
                Some((t2, b2)) => t2 == t && b2.same_as(&b),
                None => false,
            },
        },
{
    match data {
        Some((t, b)) => Some((*t, b.copy())),
        None => None,
    }
}

/// Every live reader's hold is at or beyond the meet of all holds.
proof fn lemma_meet_all_below(fs: Seq<Vec<u64>>, i: int)
    requires
        0 <= i < fs.len(),
    ensures
        dominates(fs[i]@, meet_all(fs)),
        meet(meet_all(fs), fs[i]@) == meet_all(fs),
    decreases fs.len(),
{
    if i < fs.len() - 1 {
        lemma_meet_all_below(fs.drop_last(), i);
    }
}

/// When every hold moves forward (or is released), so does their meet.
proof fn lemma_meet_all_pointwise(old_fs: Seq<Vec<u64>>, new_fs: Seq<Vec<u64>>)
    requires
        old_fs.len() == new_fs.len(),
        forall|i: int| 0 <= i < old_fs.len() ==> dominates(#[trigger] new_fs[i]@, old_fs[i]@),
    ensures
        dominates(meet_all(new_fs), meet_all(old_fs)),
    decreases old_fs.len(),
{
    if old_fs.len() > 0 {
        lemma_meet_all_pointwise(old_fs.drop_last(), new_fs.drop_last());
    }
}

/// A time is at or beyond the meet of the holds exactly when it is at or
/// beyond one of them.
pub proof fn meet_all_envelope(fs: Seq<Vec<u64>>, t: u64)
    ensures
        beyond(meet_all(fs), t) <==> exists|i: int| 0 <= i < fs.len() && beyond(#[trigger] fs[i]@, t),
    decreases fs.len(),
{
    if fs.len() > 0 {
        meet_all_envelope(fs.drop_last(), t);
        if beyond(meet_all(fs), t) {
            if beyond(meet_all(fs.drop_last()), t) {
                let i = choose|i: int|
                    0 <= i < fs.drop_last().len() && beyond(#[trigger] fs.drop_last()[i]@, t);
                assert(beyond(fs[i]@, t));
            } else {
                assert(beyond(fs[fs.len() - 1]@, t));
            }
        }
        if exists|i: int| 0 <= i < fs.len() && beyond(#[trigger] fs[i]@, t) {
            let i = choose|i: int| 0 <= i < fs.len() && beyond(#[trigger] fs[i]@, t);
            if i < fs.len() - 1 {
                assert(beyond(fs.drop_last()[i]@, t));
            }
        }
    }
}

proof fn lemma_meet_all_frontier(fs: Seq<Vec<u64>>)
    requires
        forall|i: int| 0 <= i < fs.len() ==> is_frontier(#[trigger] fs[i]@),
    ensures
        is_frontier(meet_all(fs)),
    decreases fs.len(),
{
    if fs.len() > 0 {
        lemma_meet_all_frontier(fs.drop_last());
    }
}

/// Two frontiers that the same times are at or beyond are the same.
proof fn lemma_frontier_ext(f: Seq<u64>, g: Seq<u64>)
    requires
        is_frontier(f),
        is_frontier(g),
        forall|t: u64| beyond(f, t) == beyond(g, t),
    ensures
        f == g,
{
    if f.len() == 1 {
        assert(beyond(f, f[0]));
        if g.len() == 1 {
            assert(beyond(g, g[0]));
            assert(f =~= g);
        }
    } else if g.len() == 1 {
        assert(beyond(g, g[0]));
    } else {
        assert(f =~= g);
    }
}

/// With two readers holding `fs[a]` and `fs[b]` and no other reader holding
/// anything, the trace's frontier is the meet of the two holds; once `a` is
/// dropped, it is `b`'s hold alone.
pub proof fn meet_of_two_holds(fs: Seq<Vec<u64>>, a: int, b: int, released: Vec<u64>)
    requires
        0 <= a < fs.len(),
        0 <= b < fs.len(),
        a != b,
        released@ == Seq::<u64>::empty(),
        forall|i: int| 0 <= i < fs.len() ==> is_frontier(#[trigger] fs[i]@),
        forall|i: int|
            0 <= i < fs.len() && i != a && i != b ==> #[trigger] fs[i]@ == Seq::<u64>::empty(),
    ensures
        meet_all(fs) == meet(fs[a]@, fs[b]@),
        meet_all(fs.update(a, released)) == fs[b]@,
{
    let gs = fs.update(a, released);
    lemma_meet_all_frontier(fs);
    lemma_meet_all_frontier(gs);
    assert forall|t: u64| beyond(meet_all(fs), t) == beyond(meet(fs[a]@, fs[b]@), t) by {
        meet_all_envelope(fs, t);
        crate::frontier::meet_is_lower_envelope(fs[a]@, fs[b]@, t);
        if beyond(fs[a]@, t) {
            assert(beyond(fs[a]@, t));
        }
        if beyond(fs[b]@, t) {
            assert(beyond(fs[b]@, t));
        }
    }
    lemma_frontier_ext(meet_all(fs), meet(fs[a]@, fs[b]@));
    assert forall|t: u64| beyond(meet_all(gs), t) == beyond(fs[b]@, t) by {
        meet_all_envelope(gs, t);
        assert(gs[b] == fs[b]);
        if beyond(meet_all(gs), t) {
            let i = choose|i: int| 0 <= i < gs.len() && beyond(#[trigger] gs[i]@, t);
            assert(i == b);
        }
    }
    lemma_frontier_ext(meet_all(gs), fs[b]@);
}

/// Whatever the writer seals after a listener is made comes after the
/// replay: a queue that extends one made by `new_listener` still begins
/// with every batch of the trace at that time, in order.
pub proof fn replay_comes_first(q0: Seq<Event>, q1: Seq<Event>, batches: Seq<Batch>, reached: Seq<u64>)
    requires
        is_replay(q0, batches, reached),
        q1.len() >= q0.len(),
        q1.take(q0.len() as int) == q0,
    ensures
        forall|j: int|
            0 <= j < batches.len() ==> carries(#[trigger] q1[j], seq![MINIMUM], Some((MINIMUM, batches[j]))),
{
    assert forall|j: int| 0 <= j < batches.len() implies carries(
        #[trigger] q1[j],
        seq![MINIMUM],
        Some((MINIMUM, batches[j])),
    ) by {
        assert(q1[j] == q1.take(q0.len() as int)[j]);
    }
}

} // verus!
