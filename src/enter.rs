//! Entering: a read-only view of a trace from a nested scope, whose times
//! are pairs of an outer time and an iteration. Outer times enter at
//! iteration zero, and inner times project back to their outer part. The
//! batches themselves are not copied or changed.

use vstd::prelude::*;

use crate::agent::{SharedTrace, TraceAgent};
use crate::batch::Batch;
use crate::frontier::{dominates, is_frontier};
use crate::identifier::BatchIdentifier;
use crate::trace::{boundary, is_cut, prefix_updates, TraceCursor};

verus! {

/// An update seen from the nested scope: key, value, inner time, weight.
pub type InnerUpdate = (u64, u64, (u64, u64), i64);

/// An outer frontier seen from the nested scope.
pub open spec fn to_inner(f: Seq<u64>) -> Seq<(u64, u64)> {
    f.map_values(|t: u64| (t, 0u64))
}

/// The least outer part of the times in `f`.
pub open spec fn least_outer(f: Seq<(u64, u64)>) -> u64
    decreases f.len(),
{
    if f.len() <= 1 {
        f[0].0
    } else if f.last().0 < least_outer(f.drop_last()) {
        f.last().0
    } else {
        least_outer(f.drop_last())
    }
}

/// An inner frontier projected to the outer scope: the least outer time it
/// holds, or nothing.
pub open spec fn to_outer(f: Seq<(u64, u64)>) -> Seq<u64> {
    if f.len() == 0 {
        Seq::empty()
    } else {
        seq![least_outer(f)]
    }
}

fn outer_frontier(f: &Vec<(u64, u64)>) -> (r: Vec<u64>)
    ensures
        r@ == to_outer(f@),
        is_frontier(r@),
{
    if f.len() == 0 {
        return Vec::new();
    }
    let mut least = f[0].0;
    let mut i: usize = 1;
    while i < f.len()
        invariant
            1 <= i <= f@.len(),
            least == least_outer(f@.take(i as int)),
        decreases f@.len() - i,
    {
        assert(f@.take(i + 1).drop_last() =~= f@.take(i as int));
        if f[i].0 < least {
            least = f[i].0;
        }
        i = i + 1;
    }
    assert(f@.take(f@.len() as int) =~= f@);
    vec![least]
}

fn inner_frontier(f: &Vec<u64>) -> (r: Vec<(u64, u64)>)
    ensures
        r@ == to_inner(f@),
{
    let mut r: Vec<(u64, u64)> = Vec::new();
    let mut i: usize = 0;
    while i < f.len()
        invariant
            i <= f@.len(),
            r@ == to_inner(f@.take(i as int)),
        decreases f@.len() - i,
    {
        r.push((f[i], 0));
        assert(r@ =~= to_inner(f@.take(i + 1)));
        i = i + 1;
    }
    assert(f@.take(f@.len() as int) =~= f@);
    r
}

/// An update seen from the nested scope: its time at iteration zero.
pub open spec fn entered(u: crate::batch::Update) -> InnerUpdate {
    (u.0.key, u.0.val, (u.0.time, 0u64), u.1)
}

fn entered_updates(s: &Vec<crate::batch::Update>) -> (r: Vec<InnerUpdate>)
    ensures
        r@.len() == s@.len(),
        forall|i: int| 0 <= i < r@.len() ==> #[trigger] r@[i] == entered(s@[i]),
{
    let mut r: Vec<InnerUpdate> = Vec::new();
    let mut i: usize = 0;
    while i < s.len()
        invariant
            i <= s@.len(),
            r@.len() == i,
            forall|j: int| 0 <= j < i ==> #[trigger] r@[j] == entered(s@[j]),
        decreases s@.len() - i,
    {
        let (e, d) = s[i];
        r.push((e.key, e.val, (e.time, 0), d));
        i = i + 1;
    }
    r
}

/// A batch seen from the nested scope.
pub struct BatchEnter<'a> {
    pub batch: &'a Batch,
}

impl<'a> BatchEnter<'a> {
    pub fn make_from(batch: &'a Batch) -> (r: Self)
        ensures
            r.batch == batch,
    {
        BatchEnter { batch }
    }

    pub fn len(&self) -> (r: usize)
        ensures
            r == self.batch.updates@.len(),
    {
        self.batch.len()
    }

    pub fn identifier(&self) -> (r: &'a BatchIdentifier)
        ensures
            r == &self.batch.identifier,
    {
        self.batch.identifier()
    }

    pub fn lower(&self) -> (r: Vec<(u64, u64)>)
        ensures
            r@ == to_inner(self.batch.lower_spec()),
    {
        inner_frontier(self.batch.lower())
    }

    pub fn upper(&self) -> (r: Vec<(u64, u64)>)
        ensures
            r@ == to_inner(self.batch.upper_spec()),
    {
        inner_frontier(self.batch.upper())
    }

    pub fn since(&self) -> (r: Vec<(u64, u64)>)
        ensures
            r@ == to_inner(self.batch.description.since@),
    {
        inner_frontier(self.batch.description.since())
    }

    /// The updates with their times at iteration zero.
    pub fn updates(&self) -> (r: Vec<InnerUpdate>)
        ensures
            r@.len() == self.batch.updates@.len(),
            forall|i: int|
                0 <= i < r@.len() ==> #[trigger] r@[i] == (
                    self.batch.updates@[i].0.key,
                    self.batch.updates@[i].0.val,
                    (self.batch.updates@[i].0.time, 0u64),
                    self.batch.updates@[i].1,
                ),
    {
        let s = self.batch.updates();
        let mut r: Vec<InnerUpdate> = Vec::new();
        let mut i: usize = 0;
        while i < s.len()
            invariant
                i <= s@.len(),
                r@.len() == i,
                forall|j: int|
                    0 <= j < i ==> #[trigger] r@[j] == (
                        s@[j].0.key,
                        s@[j].0.val,
                        (s@[j].0.time, 0u64),
                        s@[j].1,
                    ),
            decreases s@.len() - i,
        {
            let (e, d) = s[i];
            r.push((e.key, e.val, (e.time, 0), d));
            i = i + 1;
        }
        r
    }
}

/// A reader of a shared trace, used from a nested scope: frontiers given in
/// inner times are projected to the outer scope, and those read back enter
/// at iteration zero.
pub struct TraceEnter {
    pub trace: TraceAgent,
}

impl TraceEnter {
    pub fn make_from(trace: TraceAgent) -> (r: Self)
        ensures
            r.trace == trace,
    {
        TraceEnter { trace }
    }

    pub fn advance_by(&self, shared: &mut SharedTrace, frontier: &Vec<(u64, u64)>)
        requires
            old(shared).wf(),
            old(shared).agent_live(self.trace.id()),
        ensures
            final(shared).wf(),
            final(shared).advance_hold(self.trace.id()) == if dominates(
                to_outer(frontier@),
                old(shared).advance_hold(self.trace.id()),
            ) {
                to_outer(frontier@)
            } else {
                old(shared).advance_hold(self.trace.id())
            },
            final(shared).agent_live(self.trace.id()),
    {
        let outer = outer_frontier(frontier);
        self.trace.advance_by(shared, &outer);
    }

    pub fn advance_frontier(&self, shared: &SharedTrace) -> (r: Vec<(u64, u64)>)
        requires
            shared.wf(),
            shared.agent_live(self.trace.id()),
        ensures
            r@ == to_inner(shared.advance_hold(self.trace.id())),
    {
        let outer = self.trace.advance_frontier(shared);
        inner_frontier(&outer)
    }

    pub fn distinguish_since(&self, shared: &mut SharedTrace, frontier: &Vec<(u64, u64)>)
        requires
            old(shared).wf(),
            old(shared).agent_live(self.trace.id()),
        ensures
            final(shared).wf(),
            final(shared).through_hold(self.trace.id()) == if dominates(
                to_outer(frontier@),
                old(shared).through_hold(self.trace.id()),
            ) {
                to_outer(frontier@)
            } else {
                old(shared).through_hold(self.trace.id())
            },
            final(shared).agent_live(self.trace.id()),
    {
        let outer = outer_frontier(frontier);
        self.trace.distinguish_since(shared, &outer);
    }

    pub fn distinguish_frontier(&self, shared: &SharedTrace) -> (r: Vec<(u64, u64)>)
        requires
            shared.wf(),
            shared.agent_live(self.trace.id()),
        ensures
            r@ == to_inner(shared.through_hold(self.trace.id())),
    {
        let outer = self.trace.distinguish_frontier(shared);
        inner_frontier(&outer)
    }

    /// A cursor through the projection of `upper`, where that is a cut of the trace.
    pub fn cursor_through(&self, shared: &SharedTrace, upper: &Vec<(u64, u64)>) -> (r: Option<
        TraceCursor,
    >)
        requires
            shared.wf(),
        ensures
            r is Some <==> is_cut(shared.trace_spec().batches_spec(), to_outer(upper@)),
            r matches Some(c) ==> c.batches <= shared.trace_spec().batches_spec().len() && (if upper@.len()
                == 0 {
                c.batches == shared.trace_spec().batches_spec().len()
            } else {
                boundary(shared.trace_spec().batches_spec(), c.batches as int) == to_outer(upper@)
            }),
    {
        let outer = outer_frontier(upper);
        self.trace.cursor_through(shared, &outer)
    }

    /// The updates before `cursor`, oldest batch first, with their times at
    /// iteration zero.
    pub fn cursor_updates(&self, shared: &SharedTrace, cursor: &TraceCursor) -> (r: Vec<
        InnerUpdate,
    >)
        requires
            cursor.batches <= shared.trace_spec().batches_spec().len(),
        ensures
            r@.len() == prefix_updates(
                shared.trace_spec().batches_spec(),
                cursor.batches as int,
            ).len(),
            forall|i: int|
                0 <= i < r@.len() ==> #[trigger] r@[i] == entered(
                    prefix_updates(shared.trace_spec().batches_spec(), cursor.batches as int)[i],
                ),
    {
        let outer = cursor.updates(shared.trace());
        entered_updates(&outer)
    }

    /// The `i`-th batch of the trace, seen from the nested scope.
    pub fn batch<'a>(&self, shared: &'a SharedTrace, i: usize) -> (r: BatchEnter<'a>)
        requires
            i < shared.trace_spec().batches_spec().len(),
        ensures
            *r.batch == shared.trace_spec().batches_spec()[i as int],
    {
        let batches = self.trace.map_batches(shared);
        BatchEnter { batch: &batches[i] }
    }
}

} // verus!
