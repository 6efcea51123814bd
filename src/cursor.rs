//! A cursor over a batch: it walks the batch's keys in order and, within a
//! key, its values, and reports the times and weights of the current pair.
//! Like the batch's own methods, it takes the batch it walks as an argument.

use vstd::prelude::*;

use crate::batch::Batch;
use crate::consolidate::SortKey;

verus! {

/// A position in a batch: the first update of the current key, and the
/// first update of the current value.
pub struct BatchCursor {
    key_pos: usize,
    val_pos: usize,
}

/// Keys never decrease along a consolidated batch.
proof fn lemma_keys_sorted(b: &Batch, i: int, j: int)
    requires
        b.wf(),
        0 <= i <= j < b.updates@.len(),
    ensures
        b.updates@[i].0.key <= b.updates@[j].0.key,
        b.updates@[i].0.key == b.updates@[j].0.key ==> b.updates@[i].0.val <= b.updates@[j].0.val,
{
    if i < j {
        assert(b.updates@[i].0.key_lt(b.updates@[j].0));
    }
}

impl Batch {
    /// A cursor at the first key and value of the batch.
    pub fn cursor(&self) -> (r: BatchCursor)
        requires
            self.wf(),
        ensures
            r.valid_for(self),
            r.key_pos_spec() == 0,
            r.val_pos_spec() == 0,
    {
        BatchCursor::new(self)
    }
}

impl BatchCursor {
    pub closed spec fn key_pos_spec(&self) -> int {
        self.key_pos as int
    }

    pub closed spec fn val_pos_spec(&self) -> int {
        self.val_pos as int
    }

    /// The positions lie within `b`, the value position at or after the key position.
    pub open spec fn valid_for(&self, b: &Batch) -> bool {
        &&& b.wf()
        &&& 0 <= self.key_pos_spec() <= self.val_pos_spec() <= b.updates@.len()
    }

    pub open spec fn key_valid_spec(&self, b: &Batch) -> bool {
        self.key_pos_spec() < b.updates@.len()
    }

    pub open spec fn val_valid_spec(&self, b: &Batch) -> bool {
        &&& self.val_pos_spec() < b.updates@.len()
        &&& self.key_pos_spec() < b.updates@.len()
        &&& b.updates@[self.val_pos_spec()].0.key == b.updates@[self.key_pos_spec()].0.key
    }

    /// A cursor at the first key and value of `b`.
    pub fn new(b: &Batch) -> (r: Self)
        requires
            b.wf(),
        ensures
            r.valid_for(b),
            r.key_pos_spec() == 0,
            r.val_pos_spec() == 0,
    {
        BatchCursor { key_pos: 0, val_pos: 0 }
    }

    pub fn key_valid(&self, storage: &Batch) -> (r: bool)
        requires
            self.valid_for(storage),
        ensures
            r == self.key_valid_spec(storage),
    {
        self.key_pos < storage.updates.len()
    }

    pub fn val_valid(&self, storage: &Batch) -> (r: bool)
        requires
            self.valid_for(storage),
        ensures
            r == self.val_valid_spec(storage),
    {
        self.val_pos < storage.updates.len() && self.key_pos < storage.updates.len()
            && storage.updates[self.val_pos].0.key == storage.updates[self.key_pos].0.key
    }

    pub fn key(&self, storage: &Batch) -> (r: u64)
        requires
            self.valid_for(storage),
            self.key_valid_spec(storage),
        ensures
            r == storage.updates@[self.key_pos_spec()].0.key,
    {
        storage.updates[self.key_pos].0.key
    }

    pub fn val(&self, storage: &Batch) -> (r: u64)
        requires
            self.valid_for(storage),
            self.val_valid_spec(storage),
        ensures
            r == storage.updates@[self.val_pos_spec()].0.val,
    {
        storage.updates[self.val_pos].0.val
    }

    /// Moves to the next key, and to its first value.
    pub fn step_key(&mut self, storage: &Batch)
        requires
            old(self).valid_for(storage),
            old(self).key_valid_spec(storage),
        ensures
            final(self).valid_for(storage),
            old(self).key_pos_spec() < final(self).key_pos_spec(),
            final(self).val_pos_spec() == final(self).key_pos_spec(),
            forall|j: int|
                old(self).key_pos_spec() <= j < final(self).key_pos_spec() ==> #[trigger] storage.updates@[j].0.key
                    == storage.updates@[old(self).key_pos_spec()].0.key,
            final(self).key_pos_spec() < storage.updates@.len() ==> storage.updates@[final(
                self).key_pos_spec()].0.key != storage.updates@[old(self).key_pos_spec()].0.key,
    {
        let s = storage.updates();
        let n = s.len();
        let k = s[self.key_pos].0.key;
        let mut p = self.key_pos + 1;
        while p < s.len() && s[p].0.key == k
            invariant
                self.key_pos < p <= s@.len(),
                k == s@[self.key_pos as int].0.key,
                forall|j: int| self.key_pos <= j < p ==> #[trigger] s@[j].0.key == k,
            decreases s@.len() - p,
        {
            p = p + 1;
        }
        self.key_pos = p;
        self.val_pos = p;
    }

    /// Moves forward to the first key at or after `key`, and to its first value.
    pub fn seek_key(&mut self, storage: &Batch, key: u64)
        requires
            old(self).valid_for(storage),
        ensures
            final(self).valid_for(storage),
            old(self).key_pos_spec() <= final(self).key_pos_spec(),
            final(self).val_pos_spec() == final(self).key_pos_spec(),
            forall|j: int|
                old(self).key_pos_spec() <= j < final(self).key_pos_spec() ==> #[trigger] storage.updates@[j].0.key
                    < key,
            final(self).key_pos_spec() < storage.updates@.len() ==> storage.updates@[final(
                self).key_pos_spec()].0.key >= key,
    {
        let s = storage.updates();
        let mut lo = self.key_pos;
        let mut hi = s.len();
        while lo < hi
            invariant
                old(self).key_pos <= lo <= hi <= s@.len(),
                s@ == storage.updates@,
                storage.wf(),
                forall|j: int| old(self).key_pos <= j < lo ==> #[trigger] s@[j].0.key < key,
                hi < s@.len() ==> s@[hi as int].0.key >= key,
            decreases hi - lo,
        {
            let mid = lo + (hi - lo) / 2;
            if s[mid].0.key < key {
                proof {
                    assert forall|j: int| old(self).key_pos <= j < mid + 1 implies #[trigger] s@[j].0.key
                        < key by {
                        lemma_keys_sorted(storage, j, mid as int);
                    }
                }
                lo = mid + 1;
            } else {
                hi = mid;
            }
        }
        self.key_pos = lo;
        self.val_pos = lo;
    }

    /// Moves to the next value of the current key; past the last one, the
    /// value is no longer valid.
    pub fn step_val(&mut self, storage: &Batch)
        requires
            old(self).valid_for(storage),
            old(self).val_valid_spec(storage),
        ensures
            final(self).valid_for(storage),
            final(self).key_pos_spec() == old(self).key_pos_spec(),
            old(self).val_pos_spec() < final(self).val_pos_spec(),
            forall|j: int|
                old(self).val_pos_spec() <= j < final(self).val_pos_spec() ==> #[trigger] storage.updates@[j].0.key
                    == storage.updates@[old(self).val_pos_spec()].0.key && storage.updates@[j].0.val
                    == storage.updates@[old(self).val_pos_spec()].0.val,
            final(self).val_pos_spec() < storage.updates@.len() ==> (storage.updates@[final(
                self).val_pos_spec()].0.key != storage.updates@[old(self).val_pos_spec()].0.key
                || storage.updates@[final(self).val_pos_spec()].0.val
                != storage.updates@[old(self).val_pos_spec()].0.val),
    {
        let s = storage.updates();
        let n = s.len();
        let e = s[self.val_pos].0;
        let mut p = self.val_pos + 1;
        while p < s.len() && s[p].0.key == e.key && s[p].0.val == e.val
            invariant
                self.val_pos < p <= s@.len(),
                e == s@[self.val_pos as int].0,
                forall|j: int|
                    #![trigger s@[j]]
                    self.val_pos <= j < p ==> s@[j].0.key == e.key && s@[j].0.val == e.val,
            decreases s@.len() - p,
        {
            p = p + 1;
        }
        self.val_pos = p;
    }

    /// Moves forward to the first value of the current key at or after `val`;
    /// past the last one, the value is no longer valid.
    pub fn seek_val(&mut self, storage: &Batch, val: u64)
        requires
            old(self).valid_for(storage),
            old(self).key_valid_spec(storage),
        ensures
            final(self).valid_for(storage),
            final(self).key_pos_spec() == old(self).key_pos_spec(),
            old(self).val_pos_spec() <= final(self).val_pos_spec(),
            forall|j: int|
                old(self).val_pos_spec() <= j < final(self).val_pos_spec() ==> #[trigger] storage.updates@[j].0.key
                    == storage.updates@[old(self).key_pos_spec()].0.key && storage.updates@[j].0.val < val,
            final(self).val_pos_spec() < storage.updates@.len() ==> (storage.updates@[final(
                self).val_pos_spec()].0.key != storage.updates@[old(self).key_pos_spec()].0.key
                || storage.updates@[final(self).val_pos_spec()].0.val >= val),
    {
        let s = storage.updates();
        let k = s[self.key_pos].0.key;
        let mut p = self.val_pos;
        while p < s.len() && s[p].0.key == k && s[p].0.val < val
            invariant
                self.val_pos <= p <= s@.len(),
                k == s@[self.key_pos as int].0.key,
                self.key_pos < s@.len(),
                forall|j: int|
                    #![trigger s@[j]]
                    self.val_pos <= j < p ==> s@[j].0.key == k && s@[j].0.val < val,
            decreases s@.len() - p,
        {
            p = p + 1;
        }
        self.val_pos = p;
    }

    /// Back to the first key and value.
    pub fn rewind_keys(&mut self, storage: &Batch)
        requires
            old(self).valid_for(storage),
        ensures
            final(self).valid_for(storage),
            final(self).key_pos_spec() == 0,
            final(self).val_pos_spec() == 0,
    {
        self.key_pos = 0;
        self.val_pos = 0;
    }

    /// Back to the first value of the current key.
    pub fn rewind_vals(&mut self, storage: &Batch)
        requires
            old(self).valid_for(storage),
        ensures
            final(self).valid_for(storage),
            final(self).key_pos_spec() == old(self).key_pos_spec(),
            final(self).val_pos_spec() == old(self).key_pos_spec(),
    {
        self.val_pos = self.key_pos;
    }

    /// The times and weights of the updates at the current key and value.
    pub fn map_times(&self, storage: &Batch) -> (r: Vec<(u64, i64)>)
        requires
            self.valid_for(storage),
            self.val_valid_spec(storage),
        ensures
            r@.len() > 0,
            self.val_pos_spec() + r@.len() <= storage.updates@.len(),
            forall|j: int|
                0 <= j < r@.len() ==> {
                    &&& (#[trigger] storage.updates@[self.val_pos_spec() + j]).0.key
                        == storage.updates@[self.val_pos_spec()].0.key
                    &&& storage.updates@[self.val_pos_spec() + j].0.val
                        == storage.updates@[self.val_pos_spec()].0.val
                    &&& r@[j] == (
                        storage.updates@[self.val_pos_spec() + j].0.time,
                        storage.updates@[self.val_pos_spec() + j].1,
                    )
                },
            self.val_pos_spec() + r@.len() < storage.updates@.len() ==> (storage.updates@[self.val_pos_spec()
                + r@.len()].0.key != storage.updates@[self.val_pos_spec()].0.key
                || storage.updates@[self.val_pos_spec() + r@.len()].0.val
                != storage.updates@[self.val_pos_spec()].0.val),
    {
        let s = storage.updates();
        let e = s[self.val_pos].0;
        let mut r: Vec<(u64, i64)> = Vec::new();
        let mut p = self.val_pos;
        while p < s.len() && s[p].0.key == e.key && s[p].0.val == e.val
            invariant
                self.val_pos <= p <= s@.len(),
                e == s@[self.val_pos as int].0,
                r@.len() == p - self.val_pos,
                forall|j: int|
                    0 <= j < r@.len() ==> {
                        &&& (#[trigger] s@[self.val_pos + j]).0.key == e.key
                        &&& s@[self.val_pos + j].0.val == e.val
                        &&& r@[j] == (s@[self.val_pos + j].0.time, s@[self.val_pos + j].1)
                    },
            decreases s@.len() - p,
        {
            r.push((s[p].0.time, s[p].1));
            p = p + 1;
        }
        assert(r@.len() > 0);
        r
    }
}

} // verus!
