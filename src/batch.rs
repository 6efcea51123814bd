//! Batches: immutable, consolidated runs of updates covering an interval of
//! times, and the builder, batcher and merger that produce them.

use vstd::prelude::*;

use crate::consolidate::{
    abs, consolidate, filtered_weight, is_consolidated, is_consolidation_of, lemma_magnitude_nonneg, lemma_weight_split,
    lemma_weight_sorted, magnitude, weight, SortKey,
};
use crate::frontier::{advance_by, advance_time, beyond, copy_frontier, is_frontier, MINIMUM};
use crate::identifier::BatchIdentifier;

verus! {

/// What an update is about: a key, a value, and the time of the change.
/// Entries are ordered by key, then value, then time.
#[derive(Clone, Copy, Debug, PartialEq, Eq, Structural)]
pub struct Entry {
    pub key: u64,
    pub val: u64,
    pub time: u64,
}

impl SortKey for Entry {
    open spec fn key_lt(self, other: Self) -> bool {
        self.key < other.key || (self.key == other.key && (self.val < other.val || (self.val
            == other.val && self.time < other.time)))
    }

    proof fn key_lt_irreflexive(a: Self) {
    }

    proof fn key_lt_transitive(a: Self, b: Self, c: Self) {
    }

    proof fn key_lt_total(a: Self, b: Self) {
    }

    fn less_than(&self, other: &Self) -> (r: bool) {
        self.key < other.key || (self.key == other.key && (self.val < other.val || (self.val
            == other.val && self.time < other.time)))
    }

    fn equals(&self, other: &Self) -> (r: bool) {
        self.key == other.key && self.val == other.val && self.time == other.time
    }
}

/// An update: an entry and the change of its weight.
pub type Update = (Entry, i64);

/// The three frontiers of a batch: its updates have times at or beyond
/// `lower` and not at or beyond `upper`, and times before `since` may have
/// been moved forward to it.
pub struct Description {
    pub lower: Vec<u64>,
    pub upper: Vec<u64>,
    pub since: Vec<u64>,
}

impl Description {
    pub open spec fn wf(&self) -> bool {
        is_frontier(self.lower@) && is_frontier(self.upper@) && is_frontier(self.since@)
    }

    pub fn new(lower: Vec<u64>, upper: Vec<u64>, since: Vec<u64>) -> (r: Self)
        ensures
            r.lower@ == lower@,
            r.upper@ == upper@,
            r.since@ == since@,
    {
        Description { lower, upper, since }
    }

    pub fn lower(&self) -> (r: &Vec<u64>)
        ensures
            r@ == self.lower@,
    {
        &self.lower
    }

    pub fn upper(&self) -> (r: &Vec<u64>)
        ensures
            r@ == self.upper@,
    {
        &self.upper
    }

    pub fn since(&self) -> (r: &Vec<u64>)
        ensures
            r@ == self.since@,
    {
        &self.since
    }

    pub fn copy(&self) -> (r: Self)
        ensures
            r.lower@ == self.lower@,
            r.upper@ == self.upper@,
            r.since@ == self.since@,
    {
        Description {
            lower: copy_frontier(&self.lower),
            upper: copy_frontier(&self.upper),
            since: copy_frontier(&self.since),
        }
    }
}

/// An immutable collection of updates, each entry once, in entry order.
pub struct Batch {
    pub updates: Vec<Update>,
    pub description: Description,
    pub identifier: BatchIdentifier,
}

impl Batch {
    pub open spec fn wf(&self) -> bool {
        is_consolidated(self.updates@) && self.description.wf()
    }

    /// `self` and `other` hold the same updates, description and identifier.
    pub open spec fn same_as(&self, other: &Batch) -> bool {
        &&& self.updates@ == other.updates@
        &&& self.description.lower@ == other.description.lower@
        &&& self.description.upper@ == other.description.upper@
        &&& self.description.since@ == other.description.since@
        &&& self.identifier.parts() == other.identifier.parts()
    }

    pub open spec fn lower_spec(&self) -> Seq<u64> {
        self.description.lower@
    }

    pub open spec fn upper_spec(&self) -> Seq<u64> {
        self.description.upper@
    }

    /// A batch without updates covering `[lower, upper)`.
    pub fn empty(lower: Vec<u64>, upper: Vec<u64>, identifier: BatchIdentifier) -> (r: Self)
        requires
            is_frontier(lower@),
            is_frontier(upper@),
        ensures
            r.wf(),
            r.updates@.len() == 0,
            r.lower_spec() == lower@,
            r.upper_spec() == upper@,
            r.description.since@ == seq![MINIMUM],
            r.identifier == identifier,
    {
        Batch {
            updates: Vec::new(),
            description: Description { lower, upper, since: vec![MINIMUM] },
            identifier,
        }
    }

    /// The number of updates.
    pub fn len(&self) -> (r: usize)
        ensures
            r == self.updates@.len(),
    {
        self.updates.len()
    }

    pub fn description(&self) -> (r: &Description)
        ensures
            r == &self.description,
    {
        &self.description
    }

    pub fn identifier(&self) -> (r: &BatchIdentifier)
        ensures
            r == &self.identifier,
    {
        &self.identifier
    }

    /// All times in the batch are at or beyond `lower`.
    pub fn lower(&self) -> (r: &Vec<u64>)
        ensures
            r@ == self.lower_spec(),
    {
        &self.description.lower
    }

    /// No time in the batch is at or beyond `upper`.
    pub fn upper(&self) -> (r: &Vec<u64>)
        ensures
            r@ == self.upper_spec(),
    {
        &self.description.upper
    }

    pub fn updates(&self) -> (r: &Vec<Update>)
        ensures
            r@ == self.updates@,
    {
        &self.updates
    }

    /// A copy of the batch.
    pub fn copy(&self) -> (r: Batch)
        ensures
            r.same_as(self),
    {
        let mut updates: Vec<Update> = Vec::new();
        let mut i: usize = 0;
        while i < self.updates.len()
            invariant
                i <= self.updates@.len(),
                updates@ == self.updates@.take(i as int),
            decreases self.updates@.len() - i,
        {
            updates.push(self.updates[i]);
            assert(updates@ =~= self.updates@.take(i + 1));
            i = i + 1;
        }
        assert(self.updates@.take(self.updates@.len() as int) =~= self.updates@);
        Batch {
            updates,
            description: self.description.copy(),
            identifier: self.identifier.copy(),
        }
    }

    /// A new batch whose times are moved forward to `frontier`, consolidated.
    pub fn advance_ref(&self, frontier: &Vec<u64>) -> (r: Batch)
        requires
            frontier@.len() > 0,
            magnitude(self.updates@) <= i64::MAX,
        ensures
            is_consolidation_of(r.updates@, advanced(self.updates@, frontier@)),
            magnitude(r.updates@) <= magnitude(self.updates@),
            r.lower_spec() == self.lower_spec(),
            r.upper_spec() == self.upper_spec(),
            r.description.since@ == frontier@,
            r.identifier.parts() == self.identifier.parts(),
            self.description.wf() && is_frontier(frontier@) ==> r.wf(),
    {
        let mut times: Vec<Update> = Vec::new();
        let mut i: usize = 0;
        while i < self.updates.len()
            invariant
                i <= self.updates@.len(),
                times@ == advanced(self.updates@.take(i as int), frontier@),
            decreases self.updates@.len() - i,
        {
            let (e, d) = self.updates[i];
            let t = advance_by(e.time, frontier);
            times.push((Entry { key: e.key, val: e.val, time: t }, d));
            assert(self.updates@.take(i + 1).drop_last() =~= self.updates@.take(i as int));
            i = i + 1;
        }
        assert(self.updates@.take(self.updates@.len() as int) =~= self.updates@);
        proof {
            lemma_advanced_magnitude(self.updates@, frontier@);
        }
        assert(times@.skip(0) =~= times@);
        proof {
            crate::consolidate::lemma_items_fit(times@.skip(0));
        }
        consolidate(&mut times, 0);
        assert(times@.skip(0) =~= times@);
        let mut description = self.description.copy();
        description.since = copy_frontier(frontier);
        Batch { updates: times, description, identifier: self.identifier.copy() }
    }
}

/// The update that a tuple `(key, val, time, diff)` stands for.
pub open spec fn update_of(t: (u64, u64, u64, i64)) -> Update {
    (Entry { key: t.0, val: t.1, time: t.2 }, t.3)
}

/// Assembles a batch from updates given in entry order.
pub struct Builder {
    updates: Vec<Update>,
}

impl Builder {
    /// The updates pushed so far.
    pub closed spec fn pushed(&self) -> Seq<Update> {
        self.updates@
    }

    /// `element` may follow the updates pushed so far: its entry comes after
    /// theirs, and its weight is not zero.
    pub open spec fn accepts(&self, element: (u64, u64, u64, i64)) -> bool {
        &&& element.3 != 0
        &&& self.pushed().len() == 0 || self.pushed().last().0.key_lt(update_of(element).0)
    }

    pub fn new() -> (r: Self)
        ensures
            r.pushed() == Seq::<Update>::empty(),
    {
        Builder { updates: Vec::new() }
    }

    pub fn with_capacity(cap: usize) -> (r: Self)
        ensures
            r.pushed() == Seq::<Update>::empty(),
    {
        Builder { updates: Vec::with_capacity(cap) }
    }

    pub fn push(&mut self, element: (u64, u64, u64, i64))
        requires
            is_consolidated(old(self).pushed()),
            old(self).accepts(element),
        ensures
            final(self).pushed() == old(self).pushed().push(update_of(element)),
            is_consolidated(final(self).pushed()),
    {
        let ghost before = self.updates@;
        self.updates.push((Entry { key: element.0, val: element.1, time: element.2 }, element.3));
        proof {
            let s = self.updates@;
            assert forall|i: int, j: int| 0 <= i < j < s.len() implies s[i].0.key_lt(s[j].0) by {
                if j == s.len() - 1 && i < j - 1 {
                    Entry::key_lt_transitive(s[i].0, s[j - 1].0, s[j].0);
                }
            }
        }
    }

    /// The batch of the pushed updates, with the given description.
    pub fn done(
        self,
        lower: &Vec<u64>,
        upper: &Vec<u64>,
        since: &Vec<u64>,
        identifier: BatchIdentifier,
    ) -> (r: Batch)
        requires
            is_consolidated(self.pushed()),
            is_frontier(lower@),
            is_frontier(upper@),
            is_frontier(since@),
        ensures
            r.wf(),
            r.updates@ == self.pushed(),
            r.lower_spec() == lower@,
            r.upper_spec() == upper@,
            r.description.since@ == since@,
            r.identifier == identifier,
    {
        Batch {
            updates: self.updates,
            description: Description {
                lower: copy_frontier(lower),
                upper: copy_frontier(upper),
                since: copy_frontier(since),
            },
            identifier,
        }
    }
}

/// The updates of `s` whose times are not at or beyond `upper`.
pub open spec fn before_frontier(s: Seq<Update>, upper: Seq<u64>) -> Seq<Update>
    decreases s.len(),
{
    if s.len() == 0 {
        Seq::empty()
    } else if beyond(upper, s.last().0.time) {
        before_frontier(s.drop_last(), upper)
    } else {
        before_frontier(s.drop_last(), upper).push(s.last())
    }
}

/// The updates of `s` whose times are at or beyond `upper`.
pub open spec fn from_frontier(s: Seq<Update>, upper: Seq<u64>) -> Seq<Update>
    decreases s.len(),
{
    if s.len() == 0 {
        Seq::empty()
    } else if beyond(upper, s.last().0.time) {
        from_frontier(s.drop_last(), upper).push(s.last())
    } else {
        from_frontier(s.drop_last(), upper)
    }
}

/// The updates that a list of `((key, val), time, diff)` tuples stands for.
pub open spec fn updates_of(s: Seq<((u64, u64), u64, i64)>) -> Seq<Update> {
    s.map_values(|t: ((u64, u64), u64, i64)| (Entry { key: t.0.0, val: t.0.1, time: t.1 }, t.2))
}

/// Collects updates in any order and hands out those before a frontier as a batch.
pub struct Batcher {
    pending: Vec<Update>,
    lower: Vec<u64>,
}

impl Batcher {
    /// The updates not yet sealed.
    pub closed spec fn pending(&self) -> Seq<Update> {
        self.pending@
    }

    /// The frontier that the next sealed batch starts at.
    pub closed spec fn lower_spec(&self) -> Seq<u64> {
        self.lower@
    }

    pub open spec fn wf(&self) -> bool {
        magnitude(self.pending()) <= i64::MAX && is_frontier(self.lower_spec())
    }

    pub fn new() -> (r: Self)
        ensures
            r.wf(),
            r.pending() == Seq::<Update>::empty(),
            r.lower_spec() == seq![MINIMUM],
    {
        Batcher { pending: Vec::new(), lower: vec![MINIMUM] }
    }

    /// A batcher whose first batch starts at `lower`.
    pub fn with_lower(lower: Vec<u64>) -> (r: Self)
        requires
            is_frontier(lower@),
        ensures
            r.wf(),
            r.pending() == Seq::<Update>::empty(),
            r.lower_spec() == lower@,
    {
        Batcher { pending: Vec::new(), lower }
    }

    pub fn lower(&self) -> (r: &Vec<u64>)
        ensures
            r@ == self.lower_spec(),
    {
        &self.lower
    }

    /// Takes all updates out of `batch`.
    pub fn push_batch(&mut self, batch: &mut Vec<((u64, u64), u64, i64)>)
        requires
            old(self).wf(),
            magnitude(old(self).pending() + updates_of(old(batch)@)) <= i64::MAX,
        ensures
            final(self).wf(),
            final(self).pending() == old(self).pending() + updates_of(old(batch)@),
            final(self).lower_spec() == old(self).lower_spec(),
            final(batch)@.len() == 0,
    {
        let ghost start = self.pending@;
        let ghost lower = self.lower@;
        let ghost given = batch@;
        let mut i: usize = 0;
        while i < batch.len()
            invariant
                i <= batch@.len(),
                batch@ == given,
                self.lower@ == lower,
                self.pending@ == start + updates_of(batch@.take(i as int)),
            decreases batch@.len() - i,
        {
            let ((k, v), t, d) = batch[i];
            self.pending.push((Entry { key: k, val: v, time: t }, d));
            assert(updates_of(batch@.take(i + 1)) =~= updates_of(batch@.take(i as int)).push(
                (Entry { key: k, val: v, time: t }, d),
            ));
            assert(self.pending@ =~= start + updates_of(batch@.take(i + 1)));
            i = i + 1;
        }
        assert(batch@.take(batch@.len() as int) =~= batch@);
        batch.clear();
    }

    /// Hands out, as one consolidated batch, the updates whose times are not
    /// at or beyond `upper`; the batch covers `[lower, upper)`, and the next
    /// one starts at `upper`.
    pub fn seal(&mut self, upper: &Vec<u64>, identifier: BatchIdentifier) -> (r: Batch)
        requires
            old(self).wf(),
            is_frontier(upper@),
        ensures
            final(self).wf(),
            r.wf(),
            is_consolidation_of(r.updates@, before_frontier(old(self).pending(), upper@)),
            magnitude(r.updates@) <= magnitude(old(self).pending()),
            final(self).pending() == from_frontier(old(self).pending(), upper@),
            r.lower_spec() == old(self).lower_spec(),
            r.upper_spec() == upper@,
            r.description.since@ == seq![MINIMUM],
            final(self).lower_spec() == upper@,
            r.identifier == identifier,
    {
        let ghost all = self.pending@;
        let mut sealed: Vec<Update> = Vec::new();
        let mut kept: Vec<Update> = Vec::new();
        let mut i: usize = 0;
        while i < self.pending.len()
            invariant
                all == self.pending@,
                i <= all.len(),
                sealed@ == before_frontier(all.take(i as int), upper@),
                kept@ == from_frontier(all.take(i as int), upper@),
            decreases all.len() - i,
        {
            let u = self.pending[i];
            assert(all.take(i + 1).drop_last() =~= all.take(i as int));
            if crate::frontier::less_equal(upper, u.0.time) {
                kept.push(u);
            } else {
                sealed.push(u);
            }
            i = i + 1;
        }
        assert(all.take(all.len() as int) =~= all);
        proof {
            lemma_split_magnitude(all, upper@);
        }
        assert(sealed@.skip(0) =~= sealed@);
        proof {
            crate::consolidate::lemma_items_fit(sealed@.skip(0));
        }
        consolidate(&mut sealed, 0);
        assert(sealed@.skip(0) =~= sealed@);
        let lower = copy_frontier(&self.lower);
        self.pending = kept;
        self.lower = copy_frontier(upper);
        Batch {
            updates: sealed,
            description: Description { lower, upper: copy_frontier(upper), since: vec![MINIMUM] },
            identifier,
        }
    }

    /// The lower envelope of the pending updates' times: `[t]` for the least
    /// pending time `t`, or `[]` when nothing is pending.
    pub fn frontier(&self) -> (r: Vec<u64>)
        ensures
            is_frontier(r@),
            r@.len() == 0 <==> self.pending().len() == 0,
            r@.len() == 1 ==> (exists|i: int|
                0 <= i < self.pending().len() && #[trigger] self.pending()[i].0.time == r@[0]),
            r@.len() == 1 ==> (forall|i: int|
                0 <= i < self.pending().len() ==> r@[0] <= #[trigger] self.pending()[i].0.time),
    {
        if self.pending.len() == 0 {
            return Vec::new();
        }
        let mut least = self.pending[0].0.time;
        let mut i: usize = 1;
        while i < self.pending.len()
            invariant
                1 <= i <= self.pending@.len(),
                exists|j: int| 0 <= j < i && #[trigger] self.pending@[j].0.time == least,
                forall|j: int| 0 <= j < i ==> least <= #[trigger] self.pending@[j].0.time,
            decreases self.pending@.len() - i,
        {
            if self.pending[i].0.time < least {
                least = self.pending[i].0.time;
            }
            i = i + 1;
        }
        proof {
            let j = choose|j: int| 0 <= j < i && #[trigger] self.pending@[j].0.time == least;
            assert(self.pending()[j].0.time == least);
        }
        vec![least]
    }
}

proof fn lemma_split_magnitude(s: Seq<Update>, upper: Seq<u64>)
    ensures
        magnitude(before_frontier(s, upper)) + magnitude(from_frontier(s, upper)) == magnitude(s),
        magnitude(before_frontier(s, upper)) >= 0,
        magnitude(from_frontier(s, upper)) >= 0,
    decreases s.len(),
{
    lemma_magnitude_nonneg(before_frontier(s, upper));
    lemma_magnitude_nonneg(from_frontier(s, upper));
    if s.len() > 0 {
        lemma_split_magnitude(s.drop_last(), upper);
        let b = before_frontier(s.drop_last(), upper);
        let f = from_frontier(s.drop_last(), upper);
        assert(b.push(s.last()).drop_last() =~= b);
        assert(f.push(s.last()).drop_last() =~= f);
    }
}

/// Two batches may be merged: the second starts where the first ends, and
/// the summed weight of every entry fits in an `i64`.
pub open spec fn mergeable(a: &Batch, b: &Batch) -> bool {
    &&& a.wf()
    &&& b.wf()
    &&& a.upper_spec() == b.lower_spec()
    &&& forall|k: Entry|
        i64::MIN <= #[trigger] weight(a.updates@, k) + weight(b.updates@, k) <= i64::MAX
}

/// A merge of two consecutive batches in progress, done a bounded amount at a time.
pub struct Merger {
    merged: Vec<Update>,
    next1: usize,
    next2: usize,
}

impl Merger {
    /// How many updates of the two inputs have been merged so far.
    pub closed spec fn progress(&self) -> nat {
        (self.next1 + self.next2) as nat
    }

    /// The merge of `a` and `b` has been carried out through the merged
    /// prefixes of both, and its output so far is consolidated and comes
    /// before everything left of either input.
    pub closed spec fn tracks(&self, a: &Batch, b: &Batch) -> bool {
        &&& self.next1 <= a.updates@.len()
        &&& self.next2 <= b.updates@.len()
        &&& is_consolidated(self.merged@)
        &&& forall|x: int, y: int|
            0 <= x < self.merged@.len() && self.next1 <= y < a.updates@.len()
                ==> self.merged@[x].0.key_lt(a.updates@[y].0)
        &&& forall|x: int, y: int|
            0 <= x < self.merged@.len() && self.next2 <= y < b.updates@.len()
                ==> self.merged@[x].0.key_lt(b.updates@[y].0)
        &&& forall|k: Entry|
            #[trigger] weight(self.merged@, k) == weight(a.updates@.take(self.next1 as int), k)
                + weight(b.updates@.take(self.next2 as int), k)
        &&& magnitude(self.merged@) <= magnitude(a.updates@.take(self.next1 as int)) + magnitude(
            b.updates@.take(self.next2 as int),
        )
    }

    pub closed spec fn complete(&self, a: &Batch, b: &Batch) -> bool {
        self.next1 == a.updates@.len() && self.next2 == b.updates@.len()
    }

    /// Reports whether the merge is complete.
    pub fn is_complete(&self, a: &Batch, b: &Batch) -> (r: bool)
        requires
            self.tracks(a, b),
        ensures
            r == self.complete(a, b),
    {
        self.next1 == a.updates.len() && self.next2 == b.updates.len()
    }

    /// Starts merging `a` and `b`.
    pub fn begin_merge(a: &Batch, b: &Batch) -> (r: Self)
        requires
            mergeable(a, b),
        ensures
            r.tracks(a, b),
            r.progress() == 0,
    {
        let r = Merger { merged: Vec::new(), next1: 0, next2: 0 };
        assert forall|k: Entry|
            #[trigger] weight(r.merged@, k) == weight(a.updates@.take(0), k) + weight(
                b.updates@.take(0),
                k,
            ) by {
            assert(a.updates@.take(0) =~= Seq::<Update>::empty());
            assert(b.updates@.take(0) =~= Seq::<Update>::empty());
        }
        assert(a.updates@.take(0) =~= Seq::<Update>::empty());
        assert(b.updates@.take(0) =~= Seq::<Update>::empty());
        assert(magnitude(Seq::<Update>::empty()) == 0);
        r
    }

    /// Merges at most `fuel` more updates, taking one unit of fuel for each.
    /// When fuel is left over, the merge is complete.
    pub fn work(&mut self, a: &Batch, b: &Batch, fuel: &mut usize)
        requires
            mergeable(a, b),
            old(self).tracks(a, b),
        ensures
            final(self).tracks(a, b),
            *final(fuel) <= *old(fuel),
            final(self).progress() >= old(self).progress() + (*old(fuel) - *final(fuel)),
            *final(fuel) > 0 ==> final(self).complete(a, b),
            old(self).complete(a, b) ==> *final(fuel) == *old(fuel),
    {
        let ghost sa = a.updates@;
        let ghost sb = b.updates@;
        let ghost start = self.progress();
        let ghost start_fuel = *fuel;
        while *fuel > 0 && (self.next1 < a.updates.len() || self.next2 < b.updates.len())
            invariant
                mergeable(a, b),
                sa == a.updates@,
                sb == b.updates@,
                self.tracks(a, b),
                *fuel <= start_fuel,
                self.progress() >= start + (start_fuel - *fuel),
                self.progress() == start ==> *fuel == start_fuel,
            decreases *fuel,
        {
            let i = self.next1;
            let j = self.next2;
            let ghost m = self.merged@;
            proof {
                if i < sa.len() {
                    assert(sa.take(i as int + 1).drop_last() =~= sa.take(i as int));
                }
                if j < sb.len() {
                    assert(sb.take(j as int + 1).drop_last() =~= sb.take(j as int));
                }
            }
            let take1 = j >= b.updates.len() || (i < a.updates.len() && a.updates[i].0.less_than(
                &b.updates[j].0,
            ));
            let take2 = i >= a.updates.len() || (j < b.updates.len() && b.updates[j].0.less_than(
                &a.updates[i].0,
            ));
            if take1 {
                let u = a.updates[i];
                self.merged.push(u);
                self.next1 = i + 1;
                proof {
                    assert(self.merged@.drop_last() =~= m);
                    assert forall|x: int, y: int|
                        0 <= x < self.merged@.len() && j <= y < sb.len() implies self.merged@[
                        x].0.key_lt(sb[y].0) by {
                        if x == m.len() {
                            if y > j {
                                Entry::key_lt_transitive(u.0, sb[j as int].0, sb[y].0);
                            }
                        }
                    }
                    assert forall|x: int, y: int|
                        0 <= x < self.merged@.len() && i + 1 <= y < sa.len() implies self.merged@[
                        x].0.key_lt(sa[y].0) by {
                        if x < m.len() {
                            Entry::key_lt_transitive(m[x].0, sa[i as int].0, sa[y].0);
                        }
                    }
                    assert forall|k: Entry|
                        #[trigger] weight(self.merged@, k) == weight(sa.take(i + 1), k) + weight(
                            sb.take(j as int),
                            k,
                        ) by {
                        assert(weight(self.merged@, k) == weight(m, k) + if u.0 == k {
                            u.1 as int
                        } else {
                            0
                        });
                    }
                    assert(magnitude(self.merged@) == magnitude(m) + abs(u.1));
                    assert(magnitude(sa.take(i + 1)) == magnitude(sa.take(i as int)) + abs(u.1));
                }
            } else if take2 {
                let u = b.updates[j];
                self.merged.push(u);
                self.next2 = j + 1;
                proof {
                    assert(self.merged@.drop_last() =~= m);
                    assert forall|x: int, y: int|
                        0 <= x < self.merged@.len() && i <= y < sa.len() implies self.merged@[
                        x].0.key_lt(sa[y].0) by {
                        if x == m.len() {
                            if y > i {
                                Entry::key_lt_transitive(u.0, sa[i as int].0, sa[y].0);
                            }
                        }
                    }
                    assert forall|x: int, y: int|
                        0 <= x < self.merged@.len() && j + 1 <= y < sb.len() implies self.merged@[
                        x].0.key_lt(sb[y].0) by {
                        if x < m.len() {
                            Entry::key_lt_transitive(m[x].0, sb[j as int].0, sb[y].0);
                        }
                    }
                    assert forall|k: Entry|
                        #[trigger] weight(self.merged@, k) == weight(sa.take(i as int), k) + weight(
                            sb.take(j + 1),
                            k,
                        ) by {
                        assert(weight(self.merged@, k) == weight(m, k) + if u.0 == k {
                            u.1 as int
                        } else {
                            0
                        });
                    }
                    assert(magnitude(self.merged@) == magnitude(m) + abs(u.1));
                    assert(magnitude(sb.take(j + 1)) == magnitude(sb.take(j as int)) + abs(u.1));
                }
            } else {
                let u = a.updates[i];
                let w = b.updates[j];
                let ghost k0 = u.0;
                proof {
                    lemma_weight_sorted(sa, k0, i as int);
                    lemma_weight_sorted(sb, k0, j as int);
                    assert(i64::MIN <= weight(sa, k0) + weight(sb, k0) <= i64::MAX);
                }
                let total = u.1 + w.1;
                if total != 0 {
                    self.merged.push((u.0, total));
                }
                self.next1 = i + 1;
                self.next2 = j + 1;
                proof {
                    assert forall|x: int, y: int|
                        0 <= x < self.merged@.len() && i + 1 <= y < sa.len() implies self.merged@[
                        x].0.key_lt(sa[y].0) by {
                        if x < m.len() {
                            Entry::key_lt_transitive(m[x].0, sa[i as int].0, sa[y].0);
                        }
                    }
                    assert forall|x: int, y: int|
                        0 <= x < self.merged@.len() && j + 1 <= y < sb.len() implies self.merged@[
                        x].0.key_lt(sb[y].0) by {
                        if x < m.len() {
                            Entry::key_lt_transitive(m[x].0, sb[j as int].0, sb[y].0);
                        }
                    }
                    if total != 0 {
                        assert(self.merged@.drop_last() =~= m);
                        assert(magnitude(self.merged@) == magnitude(m) + abs(total));
                    }
                    assert(magnitude(sa.take(i + 1)) == magnitude(sa.take(i as int)) + abs(u.1));
                    assert(magnitude(sb.take(j + 1)) == magnitude(sb.take(j as int)) + abs(w.1));
                    assert forall|k: Entry|
                        #[trigger] weight(self.merged@, k) == weight(sa.take(i + 1), k) + weight(
                            sb.take(j + 1),
                            k,
                        ) by {
                        if total != 0 {
                            assert(weight(self.merged@, k) == weight(m, k) + if k0 == k {
                                total as int
                            } else {
                                0
                            });
                        }
                    }
                }
            }
            *fuel = *fuel - 1;
        }
    }

    /// The merged batch: it covers the two inputs' intervals together.
    pub fn done(self, a: &Batch, b: &Batch) -> (r: Batch)
        requires
            mergeable(a, b),
            self.tracks(a, b),
            self.complete(a, b),
        ensures
            r.wf(),
            is_consolidation_of(r.updates@, a.updates@ + b.updates@),
            r.lower_spec() == a.lower_spec(),
            r.upper_spec() == b.upper_spec(),
            r.description.since@ == a.description.since@,
            r.identifier.parts() == a.identifier.parts(),
            magnitude(r.updates@) <= magnitude(a.updates@) + magnitude(b.updates@),
    {
        assert(a.updates@.take(a.updates@.len() as int) =~= a.updates@);
        assert(b.updates@.take(b.updates@.len() as int) =~= b.updates@);
        assert forall|k: Entry| #[trigger] weight(self.merged@, k) == weight(
            a.updates@ + b.updates@,
            k,
        ) by {
            lemma_weight_split(a.updates@, b.updates@, k);
        }
        Batch {
            updates: self.merged,
            description: Description {
                lower: copy_frontier(&a.description.lower),
                upper: copy_frontier(&b.description.upper),
                since: copy_frontier(&a.description.since),
            },
            identifier: a.identifier.copy(),
        }
    }
}

/// The updates of `s` with their times moved forward to `f`.
pub open spec fn advanced(s: Seq<Update>, f: Seq<u64>) -> Seq<Update>
    decreases s.len(),
{
    if s.len() == 0 {
        Seq::empty()
    } else {
        let u = s.last();
        advanced(s.drop_last(), f).push(
            (Entry { key: u.0.key, val: u.0.val, time: advance_time(u.0.time, f) }, u.1),
        )
    }
}

/// The summed weights of the entries of key `k` and value `v` with times at
/// or before `t`: what the collection holds for `(k, v)` at `t`.
pub open spec fn accumulation(s: Seq<Update>, k: u64, v: u64, t: u64) -> int {
    filtered_weight(s, |e: Entry| e.key == k && e.val == v && e.time <= t)
}

/// The entries that moving times forward to `f` turns into `e`.
pub open spec fn advances_to(f: Seq<u64>, e: Entry) -> spec_fn(Entry) -> bool {
    |x: Entry| x.key == e.key && x.val == e.val && advance_time(x.time, f) == e.time
}

pub proof fn lemma_advanced_weight(s: Seq<Update>, f: Seq<u64>, e: Entry)
    ensures
        weight(advanced(s, f), e) == filtered_weight(s, advances_to(f, e)),
    decreases s.len(),
{
    if s.len() > 0 {
        lemma_advanced_weight(s.drop_last(), f, e);
        let a = advanced(s.drop_last(), f);
        let u = s.last();
        assert(a.push((Entry { key: u.0.key, val: u.0.val, time: advance_time(u.0.time, f) }, u.1)).drop_last() =~= a);
    }
}

proof fn lemma_advanced_accumulation(s: Seq<Update>, f: Seq<u64>, k: u64, v: u64, t: u64)
    ensures
        accumulation(advanced(s, f), k, v, t) == filtered_weight(
            s,
            |x: Entry| x.key == k && x.val == v && advance_time(x.time, f) <= t,
        ),
    decreases s.len(),
{
    if s.len() > 0 {
        lemma_advanced_accumulation(s.drop_last(), f, k, v, t);
        let a = advanced(s.drop_last(), f);
        let u = s.last();
        assert(a.push((Entry { key: u.0.key, val: u.0.val, time: advance_time(u.0.time, f) }, u.1)).drop_last() =~= a);
    }
}

/// Moving times forward to a frontier keeps what the collection holds at
/// every time at or beyond that frontier: a merged, compacted batch that
/// gives each entry the weight that moving the times of `a` and `b` forward
/// to `f` gives it holds, at such times, what `a` and `b` held together.
pub proof fn compaction_keeps_accumulations(
    a: Seq<Update>,
    b: Seq<Update>,
    merged: Seq<Update>,
    f: Seq<u64>,
    k: u64,
    v: u64,
    t: u64,
)
    requires
        forall|e: Entry| #[trigger] weight(merged, e) == weight(advanced(a + b, f), e),
        f.len() == 0 || beyond(f, t),
    ensures
        accumulation(merged, k, v, t) == accumulation(a, k, v, t) + accumulation(b, k, v, t),
{
    let p = |e: Entry| e.key == k && e.val == v && e.time <= t;
    crate::consolidate::lemma_equal_weights_filtered(merged, advanced(a + b, f), p);
    lemma_advanced_accumulation(a + b, f, k, v, t);
    let q = |x: Entry| x.key == k && x.val == v && advance_time(x.time, f) <= t;
    assert forall|i: int| 0 <= i < (a + b).len() implies q(#[trigger] (a + b)[i].0) == p(
        (a + b)[i].0,
    ) by {
    }
    crate::consolidate::lemma_filtered_agree(a + b, q, p);
    crate::consolidate::lemma_filtered_split(a, b, p);
}

proof fn lemma_advanced_magnitude(s: Seq<Update>, f: Seq<u64>)
    ensures
        magnitude(advanced(s, f)) == magnitude(s),
        advanced(s, f).len() == s.len(),
    decreases s.len(),
{
    if s.len() > 0 {
        lemma_advanced_magnitude(s.drop_last(), f);
        assert(advanced(s, f).drop_last() =~= advanced(s.drop_last(), f));
    }
}

} // verus!
