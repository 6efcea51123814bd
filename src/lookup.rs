//! Point queries: what a trace holds at a key as of a time.
//!
//! Queries are answered in runs: consecutive queries with the same key and
//! non-decreasing times share one pass over that key's history, sorted by
//! time, while a consolidated accumulation of `(value, weight)` pairs is
//! carried from each query's time to the next. Queries sorted by key and
//! time thus take one pass per key.

use vstd::prelude::*;

use crate::agent::{SharedTrace, TraceAgent};
use crate::batch::Update;
use crate::frontier::{beyond, dominates, frontier_meet, is_frontier, less_equal, meet};
use crate::trace::{lemma_prefix_magnitude, prefix_updates};
use crate::consolidate::{
    consolidate, filtered_weight, is_consolidated, is_consolidation_of,
    lemma_equal_weights_filtered, lemma_filtered_agree, lemma_filtered_split,
    lemma_magnitude_nonneg, lemma_magnitude_prefix, magnitude, weight, SortKey,
};

verus! {

/// The `(value, weight)` pairs of the updates of `s` at key `k` whose times
/// are at most `t`, in order.
pub open spec fn accumulated(s: Seq<Update>, k: u64, t: u64) -> Seq<(u64, i64)>
    decreases s.len(),
{
    if s.len() == 0 {
        Seq::empty()
    } else {
        let u = s.last();
        if u.0.key == k && u.0.time <= t {
            accumulated(s.drop_last(), k, t).push((u.0.val, u.1))
        } else {
            accumulated(s.drop_last(), k, t)
        }
    }
}

/// When a value changed: ordered by time, then value.
#[derive(Clone, Copy, Debug, PartialEq, Eq, Structural)]
pub struct Stamp {
    pub time: u64,
    pub val: u64,
}

impl SortKey for Stamp {
    open spec fn key_lt(self, other: Self) -> bool {
        self.time < other.time || (self.time == other.time && self.val < other.val)
    }

    proof fn key_lt_irreflexive(a: Self) {
    }

    proof fn key_lt_transitive(a: Self, b: Self, c: Self) {
    }

    proof fn key_lt_total(a: Self, b: Self) {
    }

    fn less_than(&self, other: &Self) -> (r: bool) {
        self.time < other.time || (self.time == other.time && self.val < other.val)
    }

    fn equals(&self, other: &Self) -> (r: bool) {
        self.time == other.time && self.val == other.val
    }
}

/// The history of key `k` in `s`: each update's time and value, with its weight.
pub open spec fn stamps_of(s: Seq<Update>, k: u64) -> Seq<(Stamp, i64)>
    decreases s.len(),
{
    if s.len() == 0 {
        Seq::empty()
    } else {
        let u = s.last();
        if u.0.key == k {
            stamps_of(s.drop_last(), k).push((Stamp { time: u.0.time, val: u.0.val }, u.1))
        } else {
            stamps_of(s.drop_last(), k)
        }
    }
}

pub open spec fn as_of(t: u64, v: u64) -> spec_fn(Stamp) -> bool {
    |st: Stamp| st.time <= t && st.val == v
}

pub open spec fn of_value(v: u64) -> spec_fn(Stamp) -> bool {
    |st: Stamp| st.val == v
}

proof fn lemma_stamps(s: Seq<Update>, k: u64, t: u64, v: u64)
    ensures
        weight(accumulated(s, k, t), v) == filtered_weight(stamps_of(s, k), as_of(t, v)),
        magnitude(stamps_of(s, k)) <= magnitude(s),
    decreases s.len(),
{
    if s.len() > 0 {
        lemma_stamps(s.drop_last(), k, t, v);
        lemma_magnitude_nonneg(stamps_of(s.drop_last(), k));
        let u = s.last();
        let a = accumulated(s.drop_last(), k, t);
        let h = stamps_of(s.drop_last(), k);
        assert(a.push((u.0.val, u.1)).drop_last() =~= a);
        assert(h.push((Stamp { time: u.0.time, val: u.0.val }, u.1)).drop_last() =~= h);
    }
}

/// The history of `key`, consolidated: in order of time, then value.
fn history(updates: &Vec<Update>, key: u64) -> (r: Vec<(Stamp, i64)>)
    requires
        magnitude(updates@) <= i64::MAX,
    ensures
        is_consolidation_of(r@, stamps_of(updates@, key)),
        magnitude(r@) <= magnitude(updates@),
{
    let mut found: Vec<(Stamp, i64)> = Vec::new();
    let mut i: usize = 0;
    while i < updates.len()
        invariant
            i <= updates@.len(),
            found@ == stamps_of(updates@.take(i as int), key),
        decreases updates@.len() - i,
    {
        let (e, d) = updates[i];
        assert(updates@.take(i + 1).drop_last() =~= updates@.take(i as int));
        if e.key == key {
            found.push((Stamp { time: e.time, val: e.val }, d));
        }
        i = i + 1;
    }
    assert(updates@.take(updates@.len() as int) =~= updates@);
    proof {
        lemma_stamps(updates@, key, 0, 0);
    }
    assert(found@.skip(0) =~= found@);
    proof {
        crate::consolidate::lemma_items_fit(found@.skip(0));
    }
    consolidate(&mut found, 0);
    assert(found@.skip(0) =~= found@);
    found
}

fn copy_pairs(w: &Vec<(u64, i64)>) -> (r: Vec<(u64, i64)>)
    ensures
        r@ == w@,
{
    let mut r: Vec<(u64, i64)> = Vec::new();
    let mut i: usize = 0;
    while i < w.len()
        invariant
            i <= w@.len(),
            r@ == w@.take(i as int),
        decreases w@.len() - i,
    {
        r.push(w[i]);
        assert(r@ =~= w@.take(i + 1));
        i = i + 1;
    }
    assert(w@.take(w@.len() as int) =~= w@);
    r
}

/// What the history `list` (consolidated, in time order) holds as of `t`,
/// where the first `p` entries are exactly those at or before `t`.
proof fn lemma_as_of_prefix(list: Seq<(Stamp, i64)>, p: int, t: u64, v: u64)
    requires
        is_consolidated(list),
        0 <= p <= list.len(),
        forall|j: int| 0 <= j < p ==> (#[trigger] list[j]).0.time <= t,
        p < list.len() ==> list[p].0.time > t,
    ensures
        filtered_weight(list, as_of(t, v)) == filtered_weight(list.take(p), of_value(v)),
{
    let head = list.take(p);
    let tail = list.skip(p);
    assert(list =~= head + tail);
    lemma_filtered_split(head, tail, as_of(t, v));
    assert forall|i: int| 0 <= i < head.len() implies as_of(t, v)(#[trigger] head[i].0) == of_value(
        v,
    )(head[i].0) by {
        assert(head[i] == list[i]);
    }
    lemma_filtered_agree(head, as_of(t, v), of_value(v));
    assert forall|i: int| 0 <= i < tail.len() implies as_of(t, v)(#[trigger] tail[i].0) == (|
        st: Stamp,
    | false)(tail[i].0) by {
        assert(tail[i] == list[p + i]);
        if i > 0 {
            assert(list[p].0.key_lt(list[p + i].0));
        }
    }
    lemma_filtered_agree(tail, as_of(t, v), |st: Stamp| false);
    lemma_filtered_none(tail);
}

proof fn lemma_filtered_none(s: Seq<(Stamp, i64)>)
    ensures
        filtered_weight(s, |st: Stamp| false) == 0,
    decreases s.len(),
{
    if s.len() > 0 {
        lemma_filtered_none(s.drop_last());
    }
}

/// Answers each query `(key, time)`: the values at `key` whose weights,
/// accumulated over the updates at or before `time`, are not zero, each with
/// that weight, in increasing order of value.
pub fn lookup(updates: &Vec<Update>, queries: &Vec<(u64, u64)>) -> (r: Vec<Vec<(u64, i64)>>)
    requires
        magnitude(updates@) <= i64::MAX,
    ensures
        r@.len() == queries@.len(),
        forall|q: int|
            0 <= q < queries@.len() ==> is_consolidation_of(
                #[trigger] r@[q]@,
                accumulated(updates@, queries@[q].0, queries@[q].1),
            ),
{
    let n = queries.len();
    let mut answers: Vec<Vec<(u64, i64)>> = Vec::new();
    let mut q: usize = 0;
    while q < n
        invariant
            n == queries@.len(),
            q <= n,
            magnitude(updates@) <= i64::MAX,
            answers@.len() == q,
            forall|j: int|
                0 <= j < q ==> is_consolidation_of(
                    #[trigger] answers@[j]@,
                    accumulated(updates@, queries@[j].0, queries@[j].1),
                ),
        decreases n - q,
    {
        let key = queries[q].0;
        let list = history(updates, key);
        let mut working: Vec<(u64, i64)> = Vec::new();
        let mut p: usize = 0;
        let mut more = true;
        let ghost q0 = q;
        proof {
            assert(list@.take(0) =~= Seq::<(Stamp, i64)>::empty());
            lemma_magnitude_nonneg(list@);
        }
        while more
            invariant
                n == queries@.len(),
                q <= n,
                q0 <= q,
                more || q0 < q,
                more ==> q < n && queries@[q as int].0 == key,
                more ==> forall|j: int| 0 <= j < p ==> (#[trigger] list@[j]).0.time <= queries@[q as int].1,
                magnitude(updates@) <= i64::MAX,
                is_consolidation_of(list@, stamps_of(updates@, key)),
                magnitude(list@) <= magnitude(updates@),
                p <= list@.len(),
                forall|v: u64| #[trigger] weight(working@, v) == filtered_weight(
                    list@.take(p as int),
                    of_value(v),
                ),
                magnitude(working@) <= magnitude(list@.take(p as int)),
                answers@.len() == q,
                forall|j: int|
                    0 <= j < q ==> is_consolidation_of(
                        #[trigger] answers@[j]@,
                        accumulated(updates@, queries@[j].0, queries@[j].1),
                    ),
            decreases n - q + if more {
                1int
            } else {
                0
            },
        {
            let t = queries[q].1;
            while p < list.len() && list[p].0.time <= t
                invariant
                    p <= list@.len(),
                    forall|j: int| 0 <= j < p ==> (#[trigger] list@[j]).0.time <= t,
                    forall|v: u64| #[trigger] weight(working@, v) == filtered_weight(
                        list@.take(p as int),
                        of_value(v),
                    ),
                    magnitude(working@) <= magnitude(list@.take(p as int)),
                decreases list@.len() - p,
            {
                let (st, d) = list[p];
                let ghost before = working@;
                working.push((st.val, d));
                proof {
                    assert(working@.drop_last() =~= before);
                    assert(list@.take(p + 1).drop_last() =~= list@.take(p as int));
                    assert(list@.take(p + 1).last() == (st, d));
                    assert forall|v: u64| #[trigger] weight(working@, v) == filtered_weight(
                        list@.take(p + 1),
                        of_value(v),
                    ) by {
                        assert(weight(working@, v) == weight(before, v) + if st.val == v {
                            d as int
                        } else {
                            0
                        });
                    }
                }
                p = p + 1;
            }
            proof {
                lemma_magnitude_prefix(list@, p as int);
                assert(working@.skip(0) =~= working@);
            }
            let ghost pre = working@;
            proof {
                crate::consolidate::lemma_items_fit(working@.skip(0));
            }
            consolidate(&mut working, 0);
            proof {
                assert(working@.skip(0) =~= working@);
                assert forall|v: u64| #[trigger] weight(working@, v) == weight(
                    accumulated(updates@, key, t),
                    v,
                ) by {
                    lemma_as_of_prefix(list@, p as int, t, v);
                    lemma_equal_weights_filtered(list@, stamps_of(updates@, key), as_of(t, v));
                    lemma_stamps(updates@, key, t, v);
                }
            }
            answers.push(copy_pairs(&working));
            q = q + 1;
            more = q < n && queries[q].0 == key && queries[q].1 >= t;
        }
    }
    answers
}

/// The consolidated `(value, weight)` pairs at `key` as of `time`.
pub fn accumulate_at(updates: &Vec<Update>, key: u64, time: u64) -> (r: Vec<(u64, i64)>)
    requires
        magnitude(updates@) <= i64::MAX,
    ensures
        is_consolidation_of(r@, accumulated(updates@, key, time)),
{
    let queries = vec![(key, time)];
    let mut answers = lookup(updates, &queries);
    assert(answers@.len() == 1);
    answers.pop().unwrap()
}

/// The queries of `s` whose times the frontier `f` has passed.
pub open spec fn ready_queries(s: Seq<(u64, u64)>, f: Seq<u64>) -> Seq<(u64, u64)>
    decreases s.len(),
{
    if s.len() == 0 {
        Seq::empty()
    } else if beyond(f, s.last().1) {
        ready_queries(s.drop_last(), f)
    } else {
        ready_queries(s.drop_last(), f).push(s.last())
    }
}

/// The queries of `s` whose times are at or beyond the frontier `f`.
pub open spec fn waiting_queries(s: Seq<(u64, u64)>, f: Seq<u64>) -> Seq<(u64, u64)>
    decreases s.len(),
{
    if s.len() == 0 {
        Seq::empty()
    } else if beyond(f, s.last().1) {
        waiting_queries(s.drop_last(), f).push(s.last())
    } else {
        waiting_queries(s.drop_last(), f)
    }
}

/// The queries of a list of messages, each `(capability time, queries)`, in order.
pub open spec fn message_queries(msgs: Seq<(u64, Vec<(u64, u64)>)>) -> Seq<(u64, u64)>
    decreases msgs.len(),
{
    if msgs.len() == 0 {
        Seq::empty()
    } else {
        message_queries(msgs.drop_last()) + msgs.last().1@
    }
}

/// The least capability time among `held` and those of `msgs`.
pub open spec fn least_query_capability(held: Option<u64>, msgs: Seq<(u64, Vec<(u64, u64)>)>) -> Option<u64>
    decreases msgs.len(),
{
    if msgs.len() == 0 {
        held
    } else {
        match least_query_capability(held, msgs.drop_last()) {
            None => Some(msgs.last().0),
            Some(c) => if msgs.last().0 < c {
                Some(msgs.last().0)
            } else {
                Some(c)
            },
        }
    }
}

/// `c` is the least time of the queries of `s`, or nothing when there are none.
pub open spec fn least_query_time(s: Seq<(u64, u64)>, c: Option<u64>) -> bool {
    match c {
        None => s.len() == 0,
        Some(t) => (exists|i: int| 0 <= i < s.len() && #[trigger] s[i].1 == t) && (forall|i: int|
            0 <= i < s.len() ==> t <= #[trigger] s[i].1),
    }
}

/// The frontier of a capability: the time it holds, or nothing.
pub open spec fn capability_frontier(c: Option<u64>) -> Seq<u64> {
    match c {
        Some(t) => seq![t],
        None => Seq::empty(),
    }
}

/// The state of a lookup operator: the queries not yet answered, the
/// capability it holds for answering them, and the reader of the trace.
pub struct LookupState {
    stash: Vec<(u64, u64)>,
    capability: Option<u64>,
    reader: TraceAgent,
}

impl LookupState {
    pub closed spec fn stash_spec(&self) -> Seq<(u64, u64)> {
        self.stash@
    }

    pub closed spec fn capability_spec(&self) -> Option<u64> {
        self.capability
    }

    pub closed spec fn reader_spec(&self) -> TraceAgent {
        self.reader
    }

    /// A lookup reading through `reader`, which gives up its distinguish
    /// hold: a lookup only ever reads the whole trace.
    pub fn new(reader: TraceAgent, shared: &mut SharedTrace) -> (r: Self)
        requires
            old(shared).wf(),
            old(shared).agent_live(reader.id()),
        ensures
            final(shared).wf(),
            r.reader_spec() == reader,
            final(shared).agent_live(reader.id()),
            final(shared).through_hold(reader.id()) == Seq::<u64>::empty(),
            final(shared).advance_hold(reader.id()) == old(shared).advance_hold(reader.id()),
            final(shared).trace_spec().batches_spec() == old(shared).trace_spec().batches_spec(),
            r.stash_spec() == Seq::<(u64, u64)>::empty(),
            r.capability_spec() is None,
    {
        let none: Vec<u64> = Vec::new();
        reader.distinguish_since(shared, &none);
        LookupState { stash: Vec::new(), capability: None, reader }
    }

    /// One scheduling step: takes in the queries of `input`, answers those
    /// whose times the trace's frontier `trace_frontier` has passed (once it
    /// has passed the capability held), keeps the others, and moves the
    /// reader's advance hold to the meet of the capability then held and the
    /// queries' frontier `input_frontier`. Returns each answered query with
    /// its answer.
    pub fn step(
        &mut self,
        shared: &mut SharedTrace,
        input: &mut Vec<(u64, Vec<(u64, u64)>)>,
        input_frontier: &Vec<u64>,
        trace_frontier: &Vec<u64>,
    ) -> (r: Vec<((u64, u64), Vec<(u64, i64)>)>)
        requires
            old(shared).wf(),
            old(shared).agent_live(old(self).reader_spec().id()),
            is_frontier(input_frontier@),
            is_frontier(trace_frontier@),
        ensures
            final(shared).wf(),
            final(self).reader_spec() == old(self).reader_spec(),
            final(shared).agent_live(old(self).reader_spec().id()),
            final(shared).trace_spec().batches_spec() == old(shared).trace_spec().batches_spec(),
            final(input)@.len() == 0,
            ({
                let all = old(self).stash_spec() + message_queries(old(input)@);
                let cap = least_query_capability(old(self).capability_spec(), old(input)@);
                let contents = prefix_updates(
                    old(shared).trace_spec().batches_spec(),
                    old(shared).trace_spec().batches_spec().len() as int,
                );
                if cap is Some && !beyond(trace_frontier@, cap.unwrap()) {
                    &&& r@.len() == ready_queries(all, trace_frontier@).len()
                    &&& forall|i: int|
                        0 <= i < r@.len() ==> (#[trigger] r@[i]).0 == ready_queries(
                            all,
                            trace_frontier@,
                        )[i] && is_consolidation_of(
                            r@[i].1@,
                            accumulated(contents, r@[i].0.0, r@[i].0.1),
                        )
                    &&& final(self).stash_spec() == waiting_queries(all, trace_frontier@)
                    &&& if r@.len() > 0 {
                        least_query_time(final(self).stash_spec(), final(self).capability_spec())
                    } else {
                        final(self).capability_spec() == cap
                    }
                } else {
                    &&& r@.len() == 0
                    &&& final(self).stash_spec() == all
                    &&& final(self).capability_spec() == cap
                }
            }),
            ({
                let hold = meet(capability_frontier(final(self).capability_spec()), input_frontier@);
                final(shared).advance_hold(old(self).reader_spec().id()) == if dominates(
                    hold,
                    old(shared).advance_hold(old(self).reader_spec().id()),
                ) {
                    hold
                } else {
                    old(shared).advance_hold(old(self).reader_spec().id())
                }
            }),
    {
        let ghost msgs = input@;
        let ghost start = self.stash@;
        let mut m: usize = 0;
        while m < input.len()
            invariant
                m <= input@.len(),
                input@ == msgs,
                self.stash@ == start + message_queries(msgs.take(m as int)),
                self.capability == least_query_capability(old(self).capability, msgs.take(m as int)),
                self.reader == old(self).reader,
            decreases input@.len() - m,
        {
            let cap = input[m].0;
            let ghost before = self.stash@;
            let mut k: usize = 0;
            while k < input[m].1.len()
                invariant
                    m < input@.len(),
                    input@ == msgs,
                    k <= msgs[m as int].1@.len(),
                    self.stash@ == before + msgs[m as int].1@.take(k as int),
                    self.capability == least_query_capability(old(self).capability, msgs.take(m as int)),
                    self.reader == old(self).reader,
                decreases msgs[m as int].1@.len() - k,
            {
                self.stash.push(input[m].1[k]);
                assert(self.stash@ =~= before + msgs[m as int].1@.take(k + 1));
                k = k + 1;
            }
            proof {
                assert(msgs[m as int].1@.take(msgs[m as int].1@.len() as int) =~= msgs[m as int].1@);
                assert(msgs.take(m + 1).drop_last() =~= msgs.take(m as int));
                assert(self.stash@ =~= start + message_queries(msgs.take(m + 1)));
                assert(msgs.take(m + 1).last() == msgs[m as int]);
            }
            self.capability = match self.capability {
                None => Some(cap),
                Some(c) => if cap < c {
                    Some(cap)
                } else {
                    Some(c)
                },
            };
            m = m + 1;
        }
        input.clear();
        assert(msgs.take(msgs.len() as int) =~= msgs);
        let ghost all = self.stash@;
        let ghost cap0 = self.capability;
        let mut out: Vec<((u64, u64), Vec<(u64, i64)>)> = Vec::new();
        match self.capability {
            Some(c) => {
                if !less_equal(trace_frontier, c) {
                    let mut ready: Vec<(u64, u64)> = Vec::new();
                    let mut waiting: Vec<(u64, u64)> = Vec::new();
                    let mut i: usize = 0;
                    while i < self.stash.len()
                        invariant
                            i <= all.len(),
                            self.stash@ == all,
                            ready@ == ready_queries(all.take(i as int), trace_frontier@),
                            waiting@ == waiting_queries(all.take(i as int), trace_frontier@),
                        decreases all.len() - i,
                    {
                        let q = self.stash[i];
                        assert(all.take(i + 1).drop_last() =~= all.take(i as int));
                        if less_equal(trace_frontier, q.1) {
                            waiting.push(q);
                        } else {
                            ready.push(q);
                        }
                        i = i + 1;
                    }
                    assert(all.take(all.len() as int) =~= all);
                    let trace = shared.trace();
                    let cursor = trace.cursor();
                    let contents = cursor.updates(trace);
                    proof {
                        lemma_prefix_magnitude(trace.batches_spec(), trace.batches_spec().len() as int);
                    }
                    let answers = lookup(&contents, &ready);
                    let mut answers = answers;
                    let n = ready.len();
                    let mut j: usize = 0;
                    let ghost ans0 = answers@;
                    while j < n
                        invariant
                            n == ready@.len(),
                            j <= n,
                            answers@.len() == n - j,
                            answers@ == ans0.skip(j as int),
                            ans0.len() == n,
                            out@.len() == j,
                            forall|x: int|
                                0 <= x < j ==> (#[trigger] out@[x]).0 == ready@[x] && out@[x].1@ == ans0[x]@,
                        decreases n - j,
                    {
                        let a = answers.remove(0);
                        assert(answers@ =~= ans0.skip(j + 1));
                        out.push((ready[j], a));
                        j = j + 1;
                    }
                    self.stash = waiting;
                    if n > 0 {
                        self.capability = least_stash_time(&self.stash);
                    }
                }
            },
            None => {},
        }
        let held = match self.capability {
            Some(c) => vec![c],
            None => Vec::new(),
        };
        assert(held@ =~= capability_frontier(self.capability));
        let hold = frontier_meet(&held, input_frontier);
        self.reader.advance_by(shared, &hold);
        out
    }
}

fn least_stash_time(s: &Vec<(u64, u64)>) -> (r: Option<u64>)
    ensures
        least_query_time(s@, r),
{
    if s.len() == 0 {
        return None;
    }
    let mut least = s[0].1;
    let mut i: usize = 1;
    while i < s.len()
        invariant
            1 <= i <= s@.len(),
            exists|j: int| 0 <= j < i && #[trigger] s@[j].1 == least,
            forall|j: int| 0 <= j < i ==> least <= #[trigger] s@[j].1,
        decreases s@.len() - i,
    {
        if s[i].1 < least {
            least = s[i].1;
        }
        i = i + 1;
    }
    Some(least)
}

} // verus!
