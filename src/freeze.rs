//! Freezing: a read-only view of a trace in which every update's time is
//! passed through a partial function. An update whose time maps to nothing is
//! left out of the view. The batches themselves are not copied or changed.

use vstd::prelude::*;

use crate::agent::{SharedTrace, TraceAgent};
use crate::batch::{Batch, Description, Entry, Update};
use crate::identifier::BatchIdentifier;

verus! {

/// A partial function on times.
pub trait TimeFilter: Copy {
    spec fn filter_spec(&self, t: u64) -> Option<u64>;

    fn filter(&self, t: u64) -> (r: Option<u64>)
        ensures
            r == self.filter_spec(t),
    ;
}

/// Shows every update up to `limit` as if it happened at `limit`, and hides
/// the later ones: the collection as it stands at `limit`.
#[derive(Clone, Copy)]
pub struct FreezeAt {
    pub limit: u64,
}

impl TimeFilter for FreezeAt {
    open spec fn filter_spec(&self, t: u64) -> Option<u64> {
        if t <= self.limit {
            Some(self.limit)
        } else {
            None
        }
    }

    fn filter(&self, t: u64) -> (r: Option<u64>) {
        if t <= self.limit {
            Some(self.limit)
        } else {
            None
        }
    }
}

/// The updates of `s` as `f` shows them, in their order.
pub open spec fn frozen<F: TimeFilter>(s: Seq<Update>, f: F) -> Seq<Update>
    decreases s.len(),
{
    if s.len() == 0 {
        Seq::empty()
    } else {
        let u = s.last();
        match f.filter_spec(u.0.time) {
            Some(t) => frozen(s.drop_last(), f).push(
                (Entry { key: u.0.key, val: u.0.val, time: t }, u.1),
            ),
            None => frozen(s.drop_last(), f),
        }
    }
}

/// A batch seen through a time filter.
pub struct BatchFreeze<'a, F: TimeFilter> {
    pub batch: &'a Batch,
    pub func: F,
}

impl<'a, F: TimeFilter> BatchFreeze<'a, F> {
    pub fn make_from(batch: &'a Batch, func: F) -> (r: Self)
        ensures
            r.batch == batch,
            r.func == func,
    {
        BatchFreeze { batch, func }
    }

    /// The number of updates stored in the underlying batch.
    pub fn len(&self) -> (r: usize)
        ensures
            r == self.batch.updates@.len(),
    {
        self.batch.len()
    }

    pub fn description(&self) -> (r: &'a Description)
        ensures
            r == &self.batch.description,
    {
        self.batch.description()
    }

    pub fn identifier(&self) -> (r: &'a BatchIdentifier)
        ensures
            r == &self.batch.identifier,
    {
        self.batch.identifier()
    }

    /// The updates as the filter shows them.
    pub fn updates(&self) -> (r: Vec<Update>)
        ensures
            r@ == frozen(self.batch.updates@, self.func),
    {
        frozen_updates(self.batch.updates(), &self.func)
    }
}

/// The updates of `s` as `func` shows them.
pub fn frozen_updates<F: TimeFilter>(s: &Vec<Update>, func: &F) -> (r: Vec<Update>)
    ensures
        r@ == frozen(s@, *func),
{
    let mut r: Vec<Update> = Vec::new();
    let mut i: usize = 0;
    while i < s.len()
        invariant
            i <= s@.len(),
            r@ == frozen(s@.take(i as int), *func),
        decreases s@.len() - i,
    {
        let (e, d) = s[i];
        assert(s@.take(i + 1).drop_last() =~= s@.take(i as int));
        match func.filter(e.time) {
            Some(t) => {
                r.push((Entry { key: e.key, val: e.val, time: t }, d));
            },
            None => {},
        }
        i = i + 1;
    }
    assert(s@.take(s@.len() as int) =~= s@);
    r
}

/// A reader of a shared trace that sees every update through a time filter.
/// Frontier calls go to the reader unchanged.
pub struct TraceFreeze<F: TimeFilter> {
    pub trace: TraceAgent,
    pub func: F,
}

impl<F: TimeFilter> TraceFreeze<F> {
    pub fn make_from(trace: TraceAgent, func: F) -> (r: Self)
        ensures
            r.trace == trace,
            r.func == func,
    {
        TraceFreeze { trace, func }
    }

    /// The `i`-th batch of the trace, seen through the filter.
    pub fn batch<'a>(&self, shared: &'a SharedTrace, i: usize) -> (r: BatchFreeze<'a, F>)
        requires
            i < shared.trace_spec().batches_spec().len(),
        ensures
            *r.batch == shared.trace_spec().batches_spec()[i as int],
            r.func == self.func,
    {
        let batches = self.trace.map_batches(shared);
        BatchFreeze { batch: &batches[i], func: self.func }
    }

}

} // verus!
