//! The arrange operator's logic, one scheduling step at a time: it takes in
//! updates, and whenever the input frontier passes the time it holds a
//! capability for, seals the updates before the frontier into a batch,
//! publishes the batch through the trace's writer and hands it on
//! downstream. Every step also publishes the input frontier, so that readers
//! learn of progress on quiet steps too.

use vstd::prelude::*;

use crate::agent::{carries, SharedTrace, TraceWriter};
use crate::batch::{before_frontier, from_frontier, updates_of, Batch, Batcher, Entry, Update};
use crate::consolidate::{
    is_consolidation_of, lemma_magnitude_nonneg, lemma_magnitude_prefix, lemma_weight_absent,
    lemma_weight_sorted, magnitude, weight,
};
use crate::frontier::{beyond, copy_frontier, is_frontier, less_equal, MINIMUM};
use crate::trace::{contiguous, total_magnitude, trace_weight, upper_of};
use crate::identifier::BatchIdentifier;

verus! {

/// The updates of a list of messages, each `(capability time, updates)`, in order.
pub open spec fn message_updates(msgs: Seq<(u64, Vec<((u64, u64), u64, i64)>)>) -> Seq<Update>
    decreases msgs.len(),
{
    if msgs.len() == 0 {
        Seq::empty()
    } else {
        message_updates(msgs.drop_last()) + updates_of(msgs.last().1@)
    }
}

/// The least capability time among `held` and those of `msgs`.
pub open spec fn least_capability(held: Option<u64>, msgs: Seq<(u64, Vec<((u64, u64), u64, i64)>)>) -> Option<u64>
    decreases msgs.len(),
{
    if msgs.len() == 0 {
        held
    } else {
        match least_capability(held, msgs.drop_last()) {
            None => Some(msgs.last().0),
            Some(c) => if msgs.last().0 < c {
                Some(msgs.last().0)
            } else {
                Some(c)
            },
        }
    }
}

/// Each message's updates are at or after its capability time, as the
/// dataflow guarantees.
pub open spec fn messages_valid(msgs: Seq<(u64, Vec<((u64, u64), u64, i64)>)>) -> bool {
    forall|m: int, i: int|
        0 <= m < msgs.len() && 0 <= i < msgs[m].1@.len() ==> msgs[m].0 <= (
        #[trigger] msgs[m].1@[i]).1
}

/// The state of one arrange operator instance.
pub struct ArrangeState {
    batcher: Batcher,
    capability: Option<u64>,
    identifier: BatchIdentifier,
    closed: bool,
}

impl ArrangeState {
    pub closed spec fn pending(&self) -> Seq<Update> {
        self.batcher.pending()
    }

    /// The capability time held, if any.
    pub closed spec fn capability_spec(&self) -> Option<u64> {
        self.capability
    }

    pub closed spec fn closed_spec(&self) -> bool {
        self.closed
    }

    /// The operator's invariant, and its agreement with the shared trace it writes.
    pub closed spec fn wf(&self, shared: &SharedTrace) -> bool {
        &&& self.batcher.wf()
        &&& shared.wf()
        &&& shared.writer_live()
        &&& !self.closed ==> self.batcher.lower_spec() == shared.trace_spec().upper_spec()
        &&& self.closed ==> self.batcher.pending().len() == 0 && self.capability is None
        &&& self.capability is None ==> self.batcher.pending().len() == 0
        &&& self.capability matches Some(c) ==> forall|i: int|
            0 <= i < self.batcher.pending().len() ==> c <= #[trigger] self.batcher.pending()[i].0.time
    }

    /// A new operator writing to the (empty) trace of `shared`.
    pub fn new(identifier: BatchIdentifier, shared: &SharedTrace) -> (r: Self)
        requires
            shared.wf(),
            shared.writer_live(),
            shared.trace_spec().batches_spec().len() == 0,
        ensures
            r.wf(shared),
            shared.wf(),
            r.pending() == Seq::<Update>::empty(),
            r.capability_spec() is None,
            !r.closed_spec(),
    {
        ArrangeState { batcher: Batcher::new(), capability: None, identifier, closed: false }
    }

    /// A new operator that first republishes `recovered`, batches kept from
    /// an earlier run, as history: each is sealed at the least time, then
    /// their end is sealed as the frontier, and new updates start there.
    pub fn recover(
        identifier: BatchIdentifier,
        shared: &mut SharedTrace,
        writer: &TraceWriter,
        recovered: &Vec<Batch>,
    ) -> (r: Self)
        requires
            old(shared).wf(),
            old(shared).writer_live(),
            old(shared).trace_spec().batches_spec().len() == 0,
            old(shared).trace_spec().total_spec() == 0,
            contiguous(recovered@),
            forall|i: int| 0 <= i < recovered@.len() ==> (#[trigger] recovered@[i]).wf(),
            total_magnitude(recovered@) <= i64::MAX,
            upper_of(recovered@).len() > 0,
        ensures
            r.wf(final(shared)),
            final(shared).wf(),
            final(shared).writer_live(),
            r.pending() == Seq::<Update>::empty(),
            r.capability_spec() is None,
            !r.closed_spec(),
            final(shared).trace_spec().batches_spec().len() == recovered@.len(),
            forall|i: int|
                0 <= i < recovered@.len() ==> (#[trigger] final(
                    shared).trace_spec().batches_spec()[i]).same_as(&recovered@[i]),
            final(shared).trace_spec().upper_spec() == upper_of(recovered@),
            final(shared).sealed() == upper_of(recovered@),
    {
        let n = recovered.len();
        let mut i: usize = 0;
        while i < n
            invariant
                n == recovered@.len(),
                i <= n,
                shared.wf(),
                shared.writer_live(),
                contiguous(recovered@),
                forall|j: int| 0 <= j < recovered@.len() ==> (#[trigger] recovered@[j]).wf(),
                total_magnitude(recovered@) <= i64::MAX,
                shared.trace_spec().batches_spec().len() == i,
                forall|j: int|
                    0 <= j < i ==> (#[trigger] shared.trace_spec().batches_spec()[j]).same_as(
                        &recovered@[j],
                    ),
                shared.trace_spec().upper_spec() == upper_of(recovered@.take(i as int)),
                shared.trace_spec().total_spec() == total_magnitude(recovered@.take(i as int)),
            decreases n - i,
        {
            let batch = recovered[i].copy();
            proof {
                assert(recovered@.take(i + 1).drop_last() =~= recovered@.take(i as int));
                if i > 0 {
                    assert(recovered@[i - 1].upper_spec() == recovered@[i as int].lower_spec());
                }
                lemma_total_prefix(recovered@, i + 1);
            }
            let first = vec![MINIMUM];
            assert(first@ =~= seq![MINIMUM]);
            writer.seal(shared, &first, Some((MINIMUM, batch)));
            i = i + 1;
        }
        assert(recovered@.take(n as int) =~= recovered@);
        let upper = if n == 0 {
            vec![MINIMUM]
        } else {
            copy_frontier(recovered[n - 1].upper())
        };
        assert(upper@ =~= upper_of(recovered@));
        writer.seal(shared, &upper, None);
        ArrangeState {
            batcher: Batcher::with_lower(upper),
            capability: None,
            identifier,
            closed: false,
        }
    }

    /// The capability time held, if any.
    pub fn capability(&self) -> (r: Option<u64>)
        ensures
            r == self.capability_spec(),
    {
        self.capability
    }

    /// One scheduling step: takes in `input` (messages of updates, each with
    /// its capability time), seals and publishes a batch if the input
    /// `frontier` has passed the capability held, and then publishes the
    /// frontier itself. Returns the batches to send downstream, each with the
    /// time to send it at.
    pub fn step(
        &mut self,
        shared: &mut SharedTrace,
        writer: &TraceWriter,
        input: &mut Vec<(u64, Vec<((u64, u64), u64, i64)>)>,
        frontier: &Vec<u64>,
    ) -> (r: Vec<(u64, Batch)>)
        requires
            old(self).wf(old(shared)),
            is_frontier(frontier@),
            messages_valid(old(input)@),
            old(shared).trace_spec().total_spec() + magnitude(
                old(self).pending() + message_updates(old(input)@),
            ) <= i64::MAX,
            old(self).closed_spec() ==> old(input)@.len() == 0,
        ensures
            final(self).wf(final(shared)),
            final(shared).wf(),
            final(shared).writer_live(),
            final(input)@.len() == 0,
            ({
                let all = old(self).pending() + message_updates(old(input)@);
                let cap = least_capability(old(self).capability_spec(), old(input)@);
                if old(self).closed_spec() {
                    &&& r@.len() == 0
                    &&& *final(shared) == *old(shared)
                    &&& final(self).pending() == old(self).pending()
                } else if cap is Some && !beyond(frontier@, cap.unwrap()) {
                    &&& r@.len() == 1
                    &&& r@[0].0 == cap.unwrap()
                    &&& is_consolidation_of(r@[0].1.updates@, before_frontier(all, frontier@))
                    &&& r@[0].1.lower_spec() == old(shared).trace_spec().upper_spec()
                    &&& r@[0].1.upper_spec() == frontier@
                    &&& forall|i: int|
                        0 <= i < r@[0].1.updates@.len() ==> r@[0].0 <= (
                        #[trigger] r@[0].1.updates@[i]).0.time
                    &&& final(self).pending() == from_frontier(all, frontier@)
                    &&& is_least_time(final(self).pending(), final(self).capability_spec())
                    &&& shared_holds_batch(*old(shared), *final(shared), r@[0].1, frontier@)
                    &&& listeners_received(
                        *old(shared),
                        *final(shared),
                        frontier@,
                        Some((r@[0].0, r@[0].1)),
                    )
                } else {
                    &&& r@.len() == 0
                    &&& final(self).pending() == all
                    &&& final(self).capability_spec() == cap
                    &&& frontier@.len() > 0 ==> final(shared).trace_spec().batches_spec() == old(
                        shared,
                    ).trace_spec().batches_spec()
                    &&& listeners_received(*old(shared), *final(shared), frontier@, None)
                }
            }),
            final(self).capability_spec() matches Some(c) ==> forall|i: int|
                0 <= i < final(self).pending().len() ==> c
                    <= #[trigger] final(self).pending()[i].0.time,
            !old(self).closed_spec() ==> forall|e: Entry|
                #[trigger] trace_weight(final(shared).trace_spec().batches_spec(), e) + weight(
                    final(self).pending(),
                    e,
                ) == trace_weight(old(shared).trace_spec().batches_spec(), e) + weight(
                    old(self).pending() + message_updates(old(input)@),
                    e,
                ),
            !old(self).closed_spec() ==> final(shared).sealed() == frontier@,
            !old(self).closed_spec() && frontier@.len() == 0 ==> final(
                shared).trace_spec().upper_spec() == Seq::<u64>::empty(),
            final(self).closed_spec() == (old(self).closed_spec() || frontier@.len() == 0),
    {
        let mut out: Vec<(u64, Batch)> = Vec::new();
        if self.closed {
            input.clear();
            return out;
        }
        let ghost msgs = input@;
        let ghost start = self.batcher.pending();
        let mut m: usize = 0;
        while m < input.len()
            invariant
                m <= input@.len(),
                input@ == msgs,
                messages_valid(msgs),
                magnitude(start + message_updates(msgs)) <= i64::MAX,
                shared.trace_spec().total_spec() + magnitude(start + message_updates(msgs))
                    <= i64::MAX,
                self.batcher.wf(),
                self.batcher.lower_spec() == old(self).batcher.lower_spec(),
                self.batcher.pending() == start + message_updates(msgs.take(m as int)),
                self.capability == least_capability(old(self).capability, msgs.take(m as int)),
                self.capability is None ==> self.batcher.pending().len() == 0,
                self.capability matches Some(c) ==> forall|i: int|
                    0 <= i < self.batcher.pending().len() ==> c
                        <= #[trigger] self.batcher.pending()[i].0.time,
                self.identifier == old(self).identifier,
                !self.closed,
                *shared == *old(shared),
            decreases input@.len() - m,
        {
            let cap = input[m].0;
            let mut data = copy_messages_data(&input[m].1);
            proof {
                assert(msgs.take(m + 1).drop_last() =~= msgs.take(m as int));
                lemma_message_prefix(msgs, m as int);
                lemma_message_updates_prefix(msgs, m + 1);
                let whole = start + message_updates(msgs);
                let part = start + message_updates(msgs.take(m + 1));
                assert(whole.take(part.len() as int) =~= part);
                lemma_magnitude_prefix(whole, part.len() as int);
                assert(self.batcher.pending() + updates_of(data@) =~= part);
            }
            self.batcher.push_batch(&mut data);
            self.capability = match self.capability {
                None => Some(cap),
                Some(c) => if cap < c {
                    Some(cap)
                } else {
                    Some(c)
                },
            };
            m = m + 1;
        }
        input.clear();
        assert(msgs.take(msgs.len() as int) =~= msgs);
        let ghost b0 = shared.trace_spec().batches_spec();
        let ghost all = self.batcher.pending();
        let ghost s0 = *shared;
        let ghost mut sent: Option<(u64, Batch)> = None;
        match self.capability {
            Some(c) => {
                if !less_equal(frontier, c) {
                    let batch = self.batcher.seal(frontier, self.identifier.copy());
                    proof {
                        lemma_before_frontier_times(all, frontier@, c);
                        lemma_consolidation_times(batch.updates@, before_frontier(all, frontier@), c);
                        lemma_split_weight(all, frontier@);
                    }
                    let published = batch.copy();
                    writer.seal(shared, frontier, Some((c, published)));
                    assert(shared.trace_spec().batches_spec().last().same_as(&batch));
                    proof {
                        sent = Some((c, batch));
                    }
                    out.push((c, batch));
                    let next = self.batcher.frontier();
                    self.capability = if next.len() == 0 {
                        None
                    } else {
                        Some(next[0])
                    };
                    proof {
                        if frontier@.len() == 0 {
                            lemma_nothing_from_empty(all);
                            assert(frontier@ =~= Seq::<u64>::empty());
                        }
                    }
                }
            },
            None => {},
        }
        let ghost b1 = shared.trace_spec().batches_spec();
        let ghost s1 = *shared;
        writer.seal(shared, frontier, None);
        if frontier.len() == 0 {
            self.closed = true;
        }
        proof {
            let b2 = shared.trace_spec().batches_spec();
            if frontier@.len() == 0 {
                assert(b2.drop_last() == b1);
                if b1.len() > b0.len() {
                    assert(b2.take(b0.len() as int) =~= b1.take(b0.len() as int));
                    assert(b2[b0.len() as int] == b1[b0.len() as int]);
                }
            } else {
                assert(b2 == b1);
            }
            if b1.len() > b0.len() {
                assert(b1 == b0.push(b1.last()));
                assert(b1.take(b0.len() as int) =~= b0);
            }
            lemma_two_seals(s0, s1, *shared, frontier@, sent);
            assert forall|e: Entry|
                #[trigger] trace_weight(b2, e) + weight(self.batcher.pending(), e) == trace_weight(b0, e) + weight(all, e) by {
                if frontier@.len() == 0 {
                    assert(b2 == b1.push(b2.last()));
                    assert(weight(b2.last().updates@, e) == 0);
                }
                if b1.len() > b0.len() {
                    assert(trace_weight(b1, e) == trace_weight(b0, e) + weight(b1.last().updates@, e));
                }
            }
        }
        out
    }
}

/// `c` is the least time of the updates of `s`, or nothing when there are none.
pub open spec fn is_least_time(s: Seq<Update>, c: Option<u64>) -> bool {
    match c {
        None => s.len() == 0,
        Some(t) => (exists|i: int| 0 <= i < s.len() && #[trigger] s[i].0.time == t) && (forall|
            i: int,
        |
            0 <= i < s.len() ==> t <= #[trigger] s[i].0.time),
    }
}

/// Every live listener of `before` received, after what it held, the sealed
/// batch (if any) and then the progress event, both at `frontier`; the other
/// listeners are as they were.
pub open spec fn listeners_received(
    before: SharedTrace,
    after: SharedTrace,
    frontier: Seq<u64>,
    sealed: Option<(u64, Batch)>,
) -> bool {
    &&& after.listener_count() == before.listener_count()
    &&& forall|l: int|
        0 <= l < before.listener_count() ==> #[trigger] after.listener_live(l)
            == before.listener_live(l)
    &&& forall|l: int|
        #![trigger after.queue(l)]
        0 <= l < before.listener_count() && before.listener_live(l) ==> {
            let n = before.queue(l).len();
            &&& after.queue(l).len() == n + if sealed is Some {
                2int
            } else {
                1int
            }
            &&& after.queue(l).take(n as int) == before.queue(l)
            &&& sealed is Some ==> carries(after.queue(l)[n as int], frontier, sealed)
            &&& carries(after.queue(l).last(), frontier, None)
        }
    &&& forall|l: int|
        #![trigger after.queue(l)]
        0 <= l < before.listener_count() && !before.listener_live(l) ==> after.queue(l)
            == before.queue(l)
}

/// `batch` was sealed at `frontier` and appended to the trace of `before`,
/// giving the trace of `after` (which the empty frontier then closes).
pub open spec fn shared_holds_batch(
    before: SharedTrace,
    after: SharedTrace,
    batch: Batch,
    frontier: Seq<u64>,
) -> bool {
    let grown = before.trace_spec().batches_spec().len() + 1;
    &&& after.trace_spec().batches_spec().len() >= grown
    &&& after.trace_spec().batches_spec().take(grown - 1) == before.trace_spec().batches_spec()
    &&& after.trace_spec().batches_spec()[grown - 1].same_as(&batch)
    &&& frontier.len() > 0 ==> after.trace_spec().batches_spec().len() == grown
}

/// Flattens a batch back into `((key, val), time, diff)` updates, in the
/// batch's order.
pub fn as_collection(batch: &Batch) -> (r: Vec<((u64, u64), u64, i64)>)
    ensures
        updates_of(r@) == batch.updates@,
{
    let s = batch.updates();
    let mut r: Vec<((u64, u64), u64, i64)> = Vec::new();
    let mut i: usize = 0;
    while i < s.len()
        invariant
            i <= s@.len(),
            r@.len() == i,
            forall|j: int|
                0 <= j < i ==> #[trigger] r@[j] == ((s@[j].0.key, s@[j].0.val), s@[j].0.time, s@[j].1),
        decreases s@.len() - i,
    {
        let (e, d) = s[i];
        r.push(((e.key, e.val), e.time, d));
        i = i + 1;
    }
    assert(updates_of(r@) =~= s@);
    r
}

fn copy_messages_data(data: &Vec<((u64, u64), u64, i64)>) -> (r: Vec<((u64, u64), u64, i64)>)
    ensures
        r@ == data@,
{
    let mut r: Vec<((u64, u64), u64, i64)> = Vec::new();
    let mut i: usize = 0;
    while i < data.len()
        invariant
            i <= data@.len(),
            r@ == data@.take(i as int),
        decreases data@.len() - i,
    {
        r.push(data[i]);
        assert(r@ =~= data@.take(i + 1));
        i = i + 1;
    }
    assert(data@.take(data@.len() as int) =~= data@);
    r
}

/// What two seals (the batch, if any, then the progress event) leave in the
/// listeners' queues.
proof fn lemma_two_seals(
    s0: SharedTrace,
    s1: SharedTrace,
    s2: SharedTrace,
    frontier: Seq<u64>,
    sent: Option<(u64, Batch)>,
)
    requires
        s1.listener_count() == s0.listener_count(),
        s2.listener_count() == s1.listener_count(),
        forall|l: int|
            0 <= l < s0.listener_count() ==> #[trigger] s1.listener_live(l) == s0.listener_live(l),
        forall|l: int|
            0 <= l < s1.listener_count() ==> #[trigger] s2.listener_live(l) == s1.listener_live(l),
        sent is None ==> forall|l: int| 0 <= l < s0.listener_count() ==> #[trigger] s1.queue(l) == s0.queue(l),
        sent is Some ==> forall|l: int|
            #![trigger s1.queue(l)]
            0 <= l < s0.listener_count() && s0.listener_live(l) ==> {
                &&& s1.queue(l).len() == s0.queue(l).len() + 1
                &&& s1.queue(l).drop_last() == s0.queue(l)
                &&& carries(s1.queue(l).last(), frontier, sent)
            },
        sent is Some ==> forall|l: int|
            0 <= l < s0.listener_count() && !s0.listener_live(l) ==> #[trigger] s1.queue(l) == s0.queue(l),
        forall|l: int|
            #![trigger s2.queue(l)]
            0 <= l < s1.listener_count() && s1.listener_live(l) ==> {
                &&& s2.queue(l).len() == s1.queue(l).len() + 1
                &&& s2.queue(l).drop_last() == s1.queue(l)
                &&& carries(s2.queue(l).last(), frontier, None)
            },
        forall|l: int|
            0 <= l < s1.listener_count() && !s1.listener_live(l) ==> #[trigger] s2.queue(l) == s1.queue(l),
    ensures
        listeners_received(s0, s2, frontier, sent),
{
    assert forall|l: int|
        0 <= l < s0.listener_count() && s0.listener_live(l) implies {
            let n = s0.queue(l).len();
            &&& s2.queue(l).len() == n + if sent is Some {
                2int
            } else {
                1int
            }
            &&& s2.queue(l).take(n as int) == s0.queue(l)
            &&& sent is Some ==> carries(s2.queue(l)[n as int], frontier, sent)
            &&& carries(s2.queue(l).last(), frontier, None)
        } by {
        let n = s0.queue(l).len();
        assert(s1.listener_live(l));
        let q1 = s1.queue(l);
        let q2 = s2.queue(l);
        assert(q2.drop_last() == q1);
        if sent is Some {
            assert(q1.drop_last() == s0.queue(l));
            assert(q2[n as int] == q1[n as int]);
            assert(q2.take(n as int) =~= s0.queue(l));
        } else {
            assert(q1 == s0.queue(l));
            assert(q2.take(n as int) =~= s0.queue(l));
        }
    }
    assert forall|l: int|
        0 <= l < s0.listener_count() && !s0.listener_live(l) implies #[trigger] s2.queue(l)
            == s0.queue(l) by {
        assert(!s1.listener_live(l));
    }
}

/// Every update before a frontier is one of the updates.
proof fn lemma_before_frontier_times(s: Seq<Update>, u: Seq<u64>, c: u64)
    requires
        forall|i: int| 0 <= i < s.len() ==> c <= #[trigger] s[i].0.time,
    ensures
        forall|i: int| 0 <= i < before_frontier(s, u).len() ==> c <= #[trigger] before_frontier(s, u)[i].0.time,
    decreases s.len(),
{
    if s.len() > 0 {
        lemma_before_frontier_times(s.drop_last(), u, c);
        let b = before_frontier(s.drop_last(), u);
        if !beyond(u, s.last().0.time) {
            assert forall|i: int| 0 <= i < b.push(s.last()).len() implies c <= #[trigger] b.push(s.last())[i].0.time by {
                if i < b.len() {
                    assert(b.push(s.last())[i] == b[i]);
                }
            }
        }
    }
}

/// Every item of a consolidated form has an entry in the source.
proof fn lemma_consolidation_times(r: Seq<Update>, s: Seq<Update>, c: u64)
    requires
        is_consolidation_of(r, s),
        forall|i: int| 0 <= i < s.len() ==> c <= #[trigger] s[i].0.time,
    ensures
        forall|i: int| 0 <= i < r.len() ==> c <= #[trigger] r[i].0.time,
{
    assert forall|i: int| 0 <= i < r.len() implies c <= #[trigger] r[i].0.time by {
        if r[i].0.time < c {
            assert forall|j: int| 0 <= j < s.len() implies #[trigger] s[j].0 != r[i].0 by {
                assert(c <= s[j].0.time);
            }
            lemma_weight_absent(s, r[i].0);
            lemma_weight_sorted(r, r[i].0, i);
            assert(weight(r, r[i].0) == weight(s, r[i].0));
        }
    }
}

/// The weights before a frontier and from it add up to all the weights.
proof fn lemma_split_weight(s: Seq<Update>, u: Seq<u64>)
    ensures
        forall|e: Entry|
            #[trigger] weight(s, e) == weight(before_frontier(s, u), e) + weight(from_frontier(s, u), e),
    decreases s.len(),
{
    if s.len() > 0 {
        lemma_split_weight(s.drop_last(), u);
        let b = before_frontier(s.drop_last(), u);
        let f = from_frontier(s.drop_last(), u);
        assert(b.push(s.last()).drop_last() =~= b);
        assert(f.push(s.last()).drop_last() =~= f);
        assert forall|e: Entry|
            #[trigger] weight(s, e) == weight(before_frontier(s, u), e) + weight(from_frontier(s, u), e) by {
            assert(weight(s, e) == weight(s.drop_last(), e) + if s.last().0 == e {
                s.last().1 as int
            } else {
                0
            });
        }
    }
}

proof fn lemma_total_prefix(bs: Seq<Batch>, k: int)
    requires
        0 <= k <= bs.len(),
    ensures
        total_magnitude(bs.take(k)) <= total_magnitude(bs),
    decreases bs.len(),
{
    if k < bs.len() {
        assert(bs.take(k) =~= bs.drop_last().take(k));
        lemma_total_prefix(bs.drop_last(), k);
        lemma_magnitude_nonneg(bs.last().updates@);
    } else {
        assert(bs.take(k) =~= bs);
    }
}

proof fn lemma_nothing_from_empty(s: Seq<Update>)
    ensures
        from_frontier(s, Seq::<u64>::empty()) == Seq::<Update>::empty(),
    decreases s.len(),
{
    if s.len() > 0 {
        lemma_nothing_from_empty(s.drop_last());
    }
}

proof fn lemma_message_updates_prefix(msgs: Seq<(u64, Vec<((u64, u64), u64, i64)>)>, k: int)
    requires
        0 <= k <= msgs.len(),
    ensures
        message_updates(msgs.take(k)).len() <= message_updates(msgs).len(),
        message_updates(msgs).take(message_updates(msgs.take(k)).len() as int) == message_updates(
            msgs.take(k),
        ),
    decreases msgs.len(),
{
    if k == msgs.len() {
        assert(msgs.take(k) =~= msgs);
        assert(message_updates(msgs).take(message_updates(msgs).len() as int) =~= message_updates(
            msgs,
        ));
    } else {
        assert(msgs.take(k) =~= msgs.drop_last().take(k));
        lemma_message_updates_prefix(msgs.drop_last(), k);
        let a = message_updates(msgs.drop_last());
        let p = message_updates(msgs.take(k));
        assert((a + updates_of(msgs.last().1@)).take(p.len() as int) =~= a.take(p.len() as int));
    }
}

proof fn lemma_message_prefix(msgs: Seq<(u64, Vec<((u64, u64), u64, i64)>)>, m: int)
    requires
        0 <= m < msgs.len(),
    ensures
        message_updates(msgs.take(m + 1)) == message_updates(msgs.take(m)) + updates_of(msgs[m].1@),
{
    assert(msgs.take(m + 1).drop_last() =~= msgs.take(m));
}

} // verus!
