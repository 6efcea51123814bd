//! The trace: an append-only, contiguous sequence of batches, with the two
//! frontiers that say how far its history may be compacted.

use vstd::prelude::*;

use crate::batch::{
    advanced, advances_to, lemma_advanced_weight, mergeable, Batch, Entry, Merger, Update,
};
use crate::consolidate::{
    abs, is_consolidated, lemma_equal_weights_filtered, lemma_magnitude_nonneg, lemma_magnitude_prefix,
    lemma_weight_bound, lemma_weight_split, magnitude, weight,
};
use crate::frontier::{copy_frontier, dominates, frontier_dominates, is_frontier, MINIMUM};
use crate::identifier::BatchIdentifier;

verus! {

/// Consecutive batches meet: each starts where the one before it ends, and
/// the first starts at the least time.
pub open spec fn contiguous(batches: Seq<Batch>) -> bool {
    &&& batches.len() > 0 ==> batches[0].lower_spec() == seq![MINIMUM]
    &&& forall|i: int|
        0 <= i < batches.len() - 1 ==> #[trigger] batches[i].upper_spec() == batches[i
            + 1].lower_spec()
}

/// Where a trace of `batches` ends: the upper frontier of its last batch.
pub open spec fn upper_of(batches: Seq<Batch>) -> Seq<u64> {
    if batches.len() == 0 {
        seq![MINIMUM]
    } else {
        batches.last().upper_spec()
    }
}

/// The frontier at which the first `n` batches end.
pub open spec fn boundary(batches: Seq<Batch>, n: int) -> Seq<u64> {
    if n == 0 {
        seq![MINIMUM]
    } else {
        batches[n - 1].upper_spec()
    }
}

/// The updates of the first `n` batches, batch after batch.
pub open spec fn prefix_updates(batches: Seq<Batch>, n: int) -> Seq<Update>
    decreases n,
{
    if n <= 0 {
        Seq::empty()
    } else {
        prefix_updates(batches, n - 1) + batches[n - 1].updates@
    }
}

/// A frontier may serve as the end of a cursor: it is the end of some prefix
/// of the batches, or it is empty (the whole trace).
pub open spec fn is_cut(batches: Seq<Batch>, upper: Seq<u64>) -> bool {
    upper.len() == 0 || exists|n: int| 0 <= n <= batches.len() && boundary(batches, n) == upper
}

/// The summed absolute weights of all updates of `batches`.
pub open spec fn total_magnitude(batches: Seq<Batch>) -> int
    decreases batches.len(),
{
    if batches.len() == 0 {
        0
    } else {
        total_magnitude(batches.drop_last()) + magnitude(batches.last().updates@)
    }
}

/// The weight that all of `batches` together give to `e`.
pub open spec fn trace_weight(batches: Seq<Batch>, e: Entry) -> int
    decreases batches.len(),
{
    if batches.len() == 0 {
        0
    } else {
        trace_weight(batches.drop_last(), e) + weight(batches.last().updates@, e)
    }
}

/// An append-only sequence of batches. Adjacent batches whose shared
/// boundary is before the distinguish frontier may be merged, a bounded
/// amount of work at a time.
pub struct Spine {
    batches: Vec<Batch>,
    advance: Vec<u64>,
    through: Vec<u64>,
    merging: Option<(usize, Merger)>,
    total: u64,
}

/// A position in a trace: the prefix of its first `batches` batches.
pub struct TraceCursor {
    pub batches: usize,
}

impl Spine {
    pub closed spec fn batches_spec(&self) -> Seq<Batch> {
        self.batches@
    }

    pub closed spec fn advance_spec(&self) -> Seq<u64> {
        self.advance@
    }

    pub closed spec fn through_spec(&self) -> Seq<u64> {
        self.through@
    }

    pub open spec fn upper_spec(&self) -> Seq<u64> {
        upper_of(self.batches_spec())
    }

    /// The summed absolute weights of all updates in the trace.
    pub closed spec fn total_spec(&self) -> int {
        self.total as int
    }

    /// A merge has been started and not completed.
    pub closed spec fn merging_spec(&self) -> bool {
        self.merging is Some
    }

    pub closed spec fn merge_wf(&self) -> bool {
        &&& self.total as int == total_magnitude(self.batches@)
        &&& self.total <= i64::MAX
        &&& self.merging matches Some((i, m)) ==> {
            &&& i + 1 < self.batches@.len()
            &&& m.tracks(&self.batches@[i as int], &self.batches@[i + 1])
            &&& mergeable(&self.batches@[i as int], &self.batches@[i + 1])
            &&& !dominates(self.batches@[i as int].upper_spec(), self.through@)
        }
    }

    pub open spec fn wf(&self) -> bool {
        &&& forall|i: int|
            0 <= i < self.batches_spec().len() ==> (#[trigger] self.batches_spec()[i]).wf()
        &&& contiguous(self.batches_spec())
        &&& is_frontier(self.advance_spec())
        &&& is_frontier(self.through_spec())
        &&& self.merge_wf()
        &&& self.total_spec() >= 0
        &&& self.total_spec() == total_magnitude(self.batches_spec())
        &&& self.total_spec() <= i64::MAX
    }

    /// An empty trace, which distinguishes all times.
    pub fn new() -> (r: Self)
        ensures
            r.wf(),
            r.batches_spec() == Seq::<Batch>::empty(),
            r.advance_spec() == seq![MINIMUM],
            r.through_spec() == seq![MINIMUM],
            r.total_spec() == 0,
    {
        Spine {
            batches: Vec::new(),
            advance: vec![MINIMUM],
            through: vec![MINIMUM],
            merging: None,
            total: 0,
        }
    }

    /// Where the trace ends: no update in it is at or beyond this frontier.
    pub fn upper(&self) -> (r: Vec<u64>)
        ensures
            r@ == self.upper_spec(),
    {
        if self.batches.len() == 0 {
            vec![MINIMUM]
        } else {
            copy_frontier(self.batches[self.batches.len() - 1].upper())
        }
    }

    /// Appends `batch`, which must start where the trace ends; a batch that
    /// does not is handed back. So is one whose weights, added to those of
    /// the trace, would not fit in an `i64`.
    pub fn insert(&mut self, batch: Batch) -> (r: Result<(), Batch>)
        requires
            old(self).wf(),
            batch.wf(),
        ensures
            final(self).wf(),
            r is Ok <==> batch.lower_spec() == old(self).upper_spec() && old(self).total_spec()
                + magnitude(batch.updates@) <= i64::MAX,
            r is Ok ==> final(self).total_spec() == old(self).total_spec() + magnitude(
                batch.updates@,
            ),
            r is Err ==> final(self).total_spec() == old(self).total_spec(),
            r is Ok ==> final(self).batches_spec() == old(self).batches_spec().push(batch),
            r is Err ==> final(self).batches_spec() == old(self).batches_spec(),
            r matches Err(b) ==> b == batch,
            final(self).advance_spec() == old(self).advance_spec(),
            final(self).through_spec() == old(self).through_spec(),
    {
        let upper = self.upper();
        if !frontier_equal(batch.lower(), &upper) {
            return Err(batch);
        }
        let m = match batch_magnitude(&batch, i64::MAX as u64 - self.total) {
            Some(m) => m,
            None => {
                return Err(batch);
            },
        };
        let ghost before = self.batches@;
        self.batches.push(batch);
        self.total = self.total + m;
        assert(self.batches@.drop_last() == before);
        Ok(())
    }

    /// Ends the trace with an empty batch from its end to the empty frontier.
    pub fn close(&mut self)
        requires
            old(self).wf(),
        ensures
            final(self).wf(),
            final(self).batches_spec().len() == old(self).batches_spec().len() + 1,
            final(self).batches_spec().drop_last() == old(self).batches_spec(),
            final(self).batches_spec().last().updates@.len() == 0,
            final(self).batches_spec().last().lower_spec() == old(self).upper_spec(),
            final(self).upper_spec() == Seq::<u64>::empty(),
            final(self).total_spec() == old(self).total_spec(),
            final(self).advance_spec() == old(self).advance_spec(),
            final(self).through_spec() == old(self).through_spec(),
    {
        let upper = self.upper();
        let empty = Batch::empty(upper, Vec::new(), BatchIdentifier::new(Vec::new(), 0));
        let ghost before = self.batches@;
        self.batches.push(empty);
        assert(self.batches@.drop_last() == before);
        assert(magnitude(Seq::<Update>::empty()) == 0);
    }

    /// Declares that times not at or beyond `frontier` need no longer be told
    /// apart. The frontier only moves forward: one behind the current is ignored.
    pub fn advance_by(&mut self, frontier: &Vec<u64>)
        requires
            old(self).wf(),
            is_frontier(frontier@),
        ensures
            final(self).wf(),
            final(self).advance_spec() == if dominates(frontier@, old(self).advance_spec()) {
                frontier@
            } else {
                old(self).advance_spec()
            },
            dominates(final(self).advance_spec(), old(self).advance_spec()),
            final(self).batches_spec() == old(self).batches_spec(),
            final(self).through_spec() == old(self).through_spec(),
            final(self).total_spec() == old(self).total_spec(),
    {
        if frontier_dominates(frontier, &self.advance) {
            self.advance = copy_frontier(frontier);
        }
    }

    pub fn advance_frontier(&self) -> (r: &Vec<u64>)
        ensures
            r@ == self.advance_spec(),
    {
        &self.advance
    }

    /// Declares that batch boundaries not at or beyond `frontier` need no
    /// longer be kept. The frontier only moves forward.
    pub fn distinguish_since(&mut self, frontier: &Vec<u64>)
        requires
            old(self).wf(),
            is_frontier(frontier@),
        ensures
            final(self).wf(),
            final(self).through_spec() == if dominates(frontier@, old(self).through_spec()) {
                frontier@
            } else {
                old(self).through_spec()
            },
            dominates(final(self).through_spec(), old(self).through_spec()),
            final(self).batches_spec() == old(self).batches_spec(),
            final(self).advance_spec() == old(self).advance_spec(),
            final(self).total_spec() == old(self).total_spec(),
    {
        if frontier_dominates(frontier, &self.through) {
            self.through = copy_frontier(frontier);
        }
    }

    pub fn distinguish_frontier(&self) -> (r: &Vec<u64>)
        ensures
            r@ == self.through_spec(),
    {
        &self.through
    }

    /// A cursor over the updates before `upper`, where `upper` is where some
    /// prefix of the batches ends, or empty for all of them.
    pub fn cursor_through(&self, upper: &Vec<u64>) -> (r: Option<TraceCursor>)
        requires
            self.wf(),
        ensures
            r is Some <==> is_cut(self.batches_spec(), upper@),
            r matches Some(c) ==> c.batches <= self.batches_spec().len() && (if upper@.len() == 0 {
                c.batches == self.batches_spec().len()
            } else {
                boundary(self.batches_spec(), c.batches as int) == upper@
            }),
    {
        if upper.len() == 0 {
            return Some(TraceCursor { batches: self.batches.len() });
        }
        let first = vec![MINIMUM];
        assert(first@ =~= seq![MINIMUM]);
        if frontier_equal(upper, &first) {
            assert(boundary(self.batches@, 0) == upper@);
            return Some(TraceCursor { batches: 0 });
        }
        let mut n: usize = 0;
        while n < self.batches.len()
            invariant
                n <= self.batches@.len(),
                upper@.len() > 0,
                forall|m: int| 0 <= m <= n ==> boundary(self.batches@, m) != upper@,
            decreases self.batches@.len() - n,
        {
            if frontier_equal(upper, self.batches[n].upper()) {
                assert(boundary(self.batches@, n + 1) == upper@);
                return Some(TraceCursor { batches: n + 1 });
            }
            n = n + 1;
        }
        None
    }

    /// A cursor over the whole trace.
    pub fn cursor(&self) -> (r: TraceCursor)
        requires
            self.wf(),
        ensures
            r.batches == self.batches_spec().len(),
    {
        TraceCursor { batches: self.batches.len() }
    }

    /// Does at most `fuel` units of merging work: continues the merge in
    /// progress, or starts one of the first two adjacent batches whose shared
    /// boundary is before the distinguish frontier. When a merge completes,
    /// the two batches are replaced by their merge and its index returned.
    pub fn exert(&mut self, fuel: &mut usize) -> (r: Option<usize>)
        requires
            old(self).wf(),
        ensures
            final(self).wf(),
            *final(fuel) <= *old(fuel),
            final(self).advance_spec() == old(self).advance_spec(),
            final(self).through_spec() == old(self).through_spec(),
            final(self).upper_spec() == old(self).upper_spec(),
            final(self).total_spec() <= old(self).total_spec(),
            r is None ==> final(self).batches_spec() == old(self).batches_spec(),
            r matches Some(i) ==> merged_at(
                old(self).batches_spec(),
                final(self).batches_spec(),
                i as int,
                old(self).advance_spec(),
            ) && !dominates(old(self).batches_spec()[i as int].upper_spec(), old(self).through_spec()),
            *old(fuel) > 0 && (old(self).merging_spec() || has_mergeable_boundary(
                old(self).batches_spec(),
                old(self).through_spec(),
            )) ==> r is Some || *final(fuel) < *old(fuel),
    {
        if self.merging.is_none() {
            let n = self.batches.len();
            let mut i: usize = 0;
            let mut found = false;
            while n > 0 && i < n - 1 && !found
                invariant
                    n == self.batches@.len(),
                    i < n || n == 0,
                    self.wf(),
                    self.merging is None,
                    found ==> i + 1 < n && !dominates(self.batches@[i as int].upper_spec(), self.through@),
                    !found ==> forall|j: int|
                        0 <= j < i ==> dominates(#[trigger] self.batches@[j].upper_spec(), self.through@),
                decreases n - i + if found {
                    0int
                } else {
                    1
                },
            {
                if !frontier_dominates(self.batches[i].upper(), &self.through) {
                    found = true;
                } else {
                    i = i + 1;
                }
            }
            if found {
                proof {
                    lemma_total_pair(self.batches@, i as int);
                    assert forall|k: Entry|
                        i64::MIN <= #[trigger] weight(self.batches@[i as int].updates@, k) + weight(
                            self.batches@[i + 1].updates@,
                            k,
                        ) <= i64::MAX by {
                        lemma_weight_bound(self.batches@[i as int].updates@, k);
                        lemma_weight_bound(self.batches@[i + 1].updates@, k);
                    }
                }
                let merger = Merger::begin_merge(&self.batches[i], &self.batches[i + 1]);
                self.merging = Some((i, merger));
            }
        }
        assert(self.wf());
        assert(self.batches@ == old(self).batches@);
        assert(self.through@ == old(self).through@);
        let ghost held = self.merging;
        let current = self.merging.take();
        match current {
            None => None,
            Some((i, merger)) => {
                assert(held == Some((i, merger)));
                let n = self.batches.len();
                assert(i + 1 < n);
                let mut merger = merger;
                merger.work(&self.batches[i], &self.batches[i + 1], fuel);
                if merger.is_complete(&self.batches[i], &self.batches[i + 1]) {
                    let merged = merger.done(&self.batches[i], &self.batches[i + 1]);
                    let ghost before = self.batches@;
                    let ghost ab = before[i as int].updates@ + before[i + 1].updates@;
                    proof {
                        lemma_total_pair(before, i as int);
                    }
                    let merged = if self.advance.len() > 0 {
                        let compacted = merged.advance_ref(&self.advance);
                        proof {
                            assert forall|e: Entry| #[trigger] weight(compacted.updates@, e) == weight(
                                advanced(ab, self.advance@),
                                e,
                            ) by {
                                lemma_advanced_weight(merged.updates@, self.advance@, e);
                                lemma_advanced_weight(ab, self.advance@, e);
                                assert forall|x: Entry| #[trigger] weight(merged.updates@, x) == weight(
                                    ab,
                                    x,
                                ) by {
                                    lemma_weight_split(before[i as int].updates@, before[i + 1].updates@, x);
                                }
                                lemma_equal_weights_filtered(
                                    merged.updates@,
                                    ab,
                                    advances_to(self.advance@, e),
                                );
                            }
                        }
                        compacted
                    } else {
                        proof {
                            assert(self.advance@ =~= Seq::<u64>::empty());
                            lemma_advanced_nowhere(ab);
                            assert forall|e: Entry| #[trigger] weight(merged.updates@, e) == weight(
                                advanced(ab, self.advance@),
                                e,
                            ) by {
                                lemma_weight_split(before[i as int].updates@, before[i + 1].updates@, e);
                            }
                        }
                        merged
                    };
                    let ghost m = merged;
                    proof {
                        lemma_replace_pair(before, i as int, m);
                    }
                    let ma = batch_magnitude(&self.batches[i], i64::MAX as u64).unwrap();
                    let mb = batch_magnitude(&self.batches[i + 1], i64::MAX as u64).unwrap();
                    let mm = batch_magnitude(&merged, i64::MAX as u64).unwrap();
                    self.total = self.total - ma - mb + mm;
                    self.batches.remove(i + 1);
                    self.batches.set(i, merged);
                    assert(self.batches@ =~= before.take(i as int) + seq![m] + before.skip(
                        i + 2,
                    ));
                    Some(i)
                } else {
                    self.merging = Some((i, merger));
                    None
                }
            },
        }
    }

    /// The batches, oldest first.
    pub fn map_batches(&self) -> (r: &Vec<Batch>)
        ensures
            r@ == self.batches_spec(),
    {
        &self.batches
    }
}

impl TraceCursor {
    /// The updates of the batches before the cursor, oldest batch first.
    pub fn updates(&self, trace: &Spine) -> (r: Vec<Update>)
        requires
            self.batches <= trace.batches_spec().len(),
        ensures
            r@ == prefix_updates(trace.batches_spec(), self.batches as int),
    {
        let batches = trace.map_batches();
        let mut r: Vec<Update> = Vec::new();
        let mut b: usize = 0;
        while b < self.batches
            invariant
                b <= self.batches <= batches@.len(),
                batches@ == trace.batches_spec(),
                r@ == prefix_updates(batches@, b as int),
            decreases self.batches - b,
        {
            let updates = batches[b].updates();
            let ghost start = r@;
            let mut i: usize = 0;
            while i < updates.len()
                invariant
                    i <= updates@.len(),
                    r@ == start + updates@.take(i as int),
                decreases updates@.len() - i,
            {
                r.push(updates[i]);
                assert(r@ =~= start + updates@.take(i + 1));
                i = i + 1;
            }
            assert(updates@.take(updates@.len() as int) =~= updates@);
            b = b + 1;
        }
        r
    }
}

/// Some boundary between two batches is before `through`, so the two may be merged.
pub open spec fn has_mergeable_boundary(batches: Seq<Batch>, through: Seq<u64>) -> bool {
    exists|i: int| 0 <= i && i + 1 < batches.len() && !dominates(#[trigger] batches[i].upper_spec(), through)
}

/// `after` is `before` with its batches `i` and `i + 1` replaced by one batch
/// that covers both and gives every entry the weight that the two give it
/// once their times are moved forward to `f`.
pub open spec fn merged_at(before: Seq<Batch>, after: Seq<Batch>, i: int, f: Seq<u64>) -> bool {
    &&& 0 <= i && i + 1 < before.len()
    &&& after.len() == before.len() - 1
    &&& forall|j: int| 0 <= j < i ==> #[trigger] after[j] == before[j]
    &&& forall|j: int| i < j < after.len() ==> #[trigger] after[j] == before[j + 1]
    &&& after[i].lower_spec() == before[i].lower_spec()
    &&& after[i].upper_spec() == before[i + 1].upper_spec()
    &&& is_consolidated(after[i].updates@)
    &&& forall|e: Entry|
        #[trigger] weight(after[i].updates@, e) == weight(
            advanced(before[i].updates@ + before[i + 1].updates@, f),
            e,
        )
}

proof fn lemma_advanced_nowhere(s: Seq<Update>)
    ensures
        advanced(s, Seq::<u64>::empty()) == s,
    decreases s.len(),
{
    if s.len() > 0 {
        lemma_advanced_nowhere(s.drop_last());
        assert(s.drop_last().push(s.last()) =~= s);
    }
}

/// The summed absolute weights of a batch, if they are at most `limit`.
fn batch_magnitude(batch: &Batch, limit: u64) -> (r: Option<u64>)
    requires
        limit <= i64::MAX,
    ensures
        r is Some <==> magnitude(batch.updates@) <= limit,
        r matches Some(m) ==> m == magnitude(batch.updates@),
{
    let s = batch.updates();
    let mut sum: u64 = 0;
    let mut i: usize = 0;
    while i < s.len()
        invariant
            i <= s@.len(),
            s@ == batch.updates@,
            limit <= i64::MAX,
            sum as int == magnitude(s@.take(i as int)),
            sum <= limit,
        decreases s@.len() - i,
    {
        let d = s[i].1;
        assert(s@.take(i + 1).drop_last() =~= s@.take(i as int));
        let a: u64 = if d >= 0 {
            d as u64
        } else if d == i64::MIN {
            9223372036854775808u64
        } else {
            (-d) as u64
        };
        assert(a as int == abs(d));
        assert(s@.take(i + 1).last() == s@[i as int]);
        assert(magnitude(s@.take(i + 1)) == sum + a);
        if a > limit - sum {
            proof {
                lemma_magnitude_prefix(s@, i as int + 1);
                assert(magnitude(s@) > limit);
                assert(magnitude(batch.updates@) > limit);
            }
            return None;
        }
        sum = sum + a;
        i = i + 1;
    }
    assert(s@.take(s@.len() as int) =~= s@);
    Some(sum)
}

/// The updates of a prefix of the batches weigh no more than the whole trace.
pub proof fn lemma_prefix_magnitude(bs: Seq<Batch>, n: int)
    requires
        0 <= n <= bs.len(),
    ensures
        magnitude(prefix_updates(bs, n)) <= total_magnitude(bs),
    decreases bs.len(),
{
    if n < bs.len() {
        assert(forall|m: int| 0 <= m <= n ==> prefix_updates(bs, m) == prefix_updates(bs.drop_last(), m)) by {
            lemma_prefix_same(bs, bs.drop_last(), n);
        }
        lemma_prefix_magnitude(bs.drop_last(), n);
        lemma_magnitude_nonneg(bs.last().updates@);
    } else if n > 0 {
        lemma_prefix_magnitude(bs.drop_last(), n - 1);
        lemma_prefix_same(bs, bs.drop_last(), n - 1);
        crate::consolidate::lemma_magnitude_split(prefix_updates(bs, n - 1), bs[n - 1].updates@);
    }
}

proof fn lemma_prefix_same(a: Seq<Batch>, b: Seq<Batch>, n: int)
    requires
        0 <= n <= a.len(),
        n <= b.len(),
        forall|i: int| 0 <= i < n ==> a[i] == b[i],
    ensures
        forall|m: int| 0 <= m <= n ==> #[trigger] prefix_updates(a, m) == prefix_updates(b, m),
    decreases n,
{
    if n > 0 {
        lemma_prefix_same(a, b, n - 1);
        assert(prefix_updates(a, n - 1) == prefix_updates(b, n - 1));
        assert(a[n - 1] == b[n - 1]);
        assert(prefix_updates(a, n) == prefix_updates(b, n));
    }
}

proof fn lemma_total_nonneg(bs: Seq<Batch>)
    ensures
        total_magnitude(bs) >= 0,
    decreases bs.len(),
{
    if bs.len() > 0 {
        lemma_total_nonneg(bs.drop_last());
        lemma_magnitude_nonneg(bs.last().updates@);
    }
}

proof fn lemma_total_split(a: Seq<Batch>, b: Seq<Batch>)
    ensures
        total_magnitude(a + b) == total_magnitude(a) + total_magnitude(b),
    decreases b.len(),
{
    if b.len() == 0 {
        assert(a + b =~= a);
    } else {
        lemma_total_split(a, b.drop_last());
        assert((a + b).drop_last() =~= a + b.drop_last());
    }
}

/// Two adjacent batches weigh no more than the whole trace.
proof fn lemma_total_pair(bs: Seq<Batch>, i: int)
    requires
        0 <= i && i + 1 < bs.len(),
    ensures
        magnitude(bs[i].updates@) + magnitude(bs[i + 1].updates@) <= total_magnitude(bs),
        magnitude(bs[i].updates@) >= 0,
        magnitude(bs[i + 1].updates@) >= 0,
{
    let pre = bs.take(i);
    let pair = seq![bs[i], bs[i + 1]];
    let post = bs.skip(i + 2);
    assert(bs =~= pre + pair + post);
    lemma_total_split(pre + pair, post);
    lemma_total_split(pre, pair);
    lemma_total_nonneg(pre);
    lemma_total_nonneg(post);
    assert(pair.drop_last() =~= seq![bs[i]]);
    assert(seq![bs[i]].drop_last() =~= Seq::<Batch>::empty());
    assert(total_magnitude(Seq::<Batch>::empty()) == 0);
    assert(total_magnitude(seq![bs[i]]) == magnitude(bs[i].updates@));
    assert(total_magnitude(pair) == magnitude(bs[i].updates@) + magnitude(bs[i + 1].updates@));
    lemma_magnitude_nonneg(bs[i].updates@);
    lemma_magnitude_nonneg(bs[i + 1].updates@);
}

/// Replacing two adjacent batches by one changes the total by the difference.
proof fn lemma_replace_pair(bs: Seq<Batch>, i: int, m: Batch)
    requires
        0 <= i && i + 1 < bs.len(),
    ensures
        total_magnitude(bs.take(i) + seq![m] + bs.skip(i + 2)) == total_magnitude(bs) - magnitude(
            bs[i].updates@,
        ) - magnitude(bs[i + 1].updates@) + magnitude(m.updates@),
{
    let pre = bs.take(i);
    let pair = seq![bs[i], bs[i + 1]];
    let post = bs.skip(i + 2);
    assert(bs =~= pre + pair + post);
    lemma_total_split(pre + pair, post);
    lemma_total_split(pre, pair);
    lemma_total_split(pre + seq![m], post);
    lemma_total_split(pre, seq![m]);
    assert(pair.drop_last() =~= seq![bs[i]]);
    assert(seq![bs[i]].drop_last() =~= Seq::<Batch>::empty());
    assert(seq![m].drop_last() =~= Seq::<Batch>::empty());
    assert(total_magnitude(Seq::<Batch>::empty()) == 0);
    assert(total_magnitude(seq![bs[i]]) == magnitude(bs[i].updates@));
    assert(total_magnitude(pair) == magnitude(bs[i].updates@) + magnitude(bs[i + 1].updates@));
    assert(total_magnitude(seq![m]) == magnitude(m.updates@));
}

/// Reports whether two frontiers are the same.
pub fn frontier_equal(a: &Vec<u64>, b: &Vec<u64>) -> (r: bool)
    ensures
        r == (a@ == b@),
{
    if a.len() != b.len() {
        return false;
    }
    let mut i: usize = 0;
    while i < a.len()
        invariant
            a@.len() == b@.len(),
            i <= a@.len(),
            forall|j: int| 0 <= j < i ==> a@[j] == b@[j],
        decreases a@.len() - i,
    {
        if a[i] != b[i] {
            return false;
        }
        i = i + 1;
    }
    assert(a@ =~= b@);
    true
}

/// Batches can be inserted one after another exactly when each starts where
/// the one before it ends: inserting them in turn into a new trace succeeds
/// throughout, and leaves the trace contiguous.
pub proof fn insertions_are_contiguous(batches: Seq<Batch>)
    requires
        contiguous(batches),
    ensures
        forall|n: int|
            0 <= n < batches.len() ==> #[trigger] batches[n].lower_spec() == upper_of(
                batches.take(n),
            ),
{
    assert forall|n: int| 0 <= n < batches.len() implies #[trigger] batches[n].lower_spec()
        == upper_of(batches.take(n)) by {
        if n > 0 {
            assert(batches.take(n).last() == batches[n - 1]);
        }
    }
}

} // verus!
