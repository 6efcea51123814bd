//! Consolidation: summing the weights of equal items and dropping those whose
//! weights cancel, leaving one entry per item in increasing order.

use vstd::prelude::*;

verus! {

/// Item types with a strict total order, which consolidation sorts by.
pub trait SortKey: Copy + Sized {
    spec fn key_lt(self, other: Self) -> bool;

    proof fn key_lt_irreflexive(a: Self)
        ensures
            !a.key_lt(a),
    ;

    proof fn key_lt_transitive(a: Self, b: Self, c: Self)
        requires
            a.key_lt(b),
            b.key_lt(c),
        ensures
            a.key_lt(c),
    ;

    proof fn key_lt_total(a: Self, b: Self)
        ensures
            a.key_lt(b) || b.key_lt(a) || a == b,
    ;

    fn less_than(&self, other: &Self) -> (r: bool)
        ensures
            r == self.key_lt(*other),
    ;

    fn equals(&self, other: &Self) -> (r: bool)
        ensures
            r == (*self == *other),
    ;
}

impl SortKey for u64 {
    open spec fn key_lt(self, other: Self) -> bool {
        self < other
    }

    proof fn key_lt_irreflexive(a: Self) {
    }

    proof fn key_lt_transitive(a: Self, b: Self, c: Self) {
    }

    proof fn key_lt_total(a: Self, b: Self) {
    }

    fn less_than(&self, other: &Self) -> (r: bool) {
        *self < *other
    }

    fn equals(&self, other: &Self) -> (r: bool) {
        *self == *other
    }
}

/// The total weight that `s` gives to the item `k`.
pub open spec fn weight<K: SortKey>(s: Seq<(K, i64)>, k: K) -> int
    decreases s.len(),
{
    if s.len() == 0 {
        0
    } else {
        weight(s.drop_last(), k) + if s.last().0 == k {
            s.last().1 as int
        } else {
            0
        }
    }
}

/// The summed absolute weights that `s` gives to the item `k`.
pub open spec fn item_magnitude<K: SortKey>(s: Seq<(K, i64)>, k: K) -> int
    decreases s.len(),
{
    if s.len() == 0 {
        0
    } else {
        item_magnitude(s.drop_last(), k) + if s.last().0 == k {
            abs(s.last().1)
        } else {
            0
        }
    }
}

/// For every item, the absolute weights that `s` gives it sum to at most
/// `i64::MAX`, so that no sum of some of them overflows.
pub open spec fn items_fit<K: SortKey>(s: Seq<(K, i64)>) -> bool {
    forall|k: K| #[trigger] item_magnitude(s, k) <= i64::MAX
}

pub proof fn lemma_item_magnitude_bounds<K: SortKey>(s: Seq<(K, i64)>, k: K)
    ensures
        0 <= item_magnitude(s, k) <= magnitude(s),
        -item_magnitude(s, k) <= weight(s, k) <= item_magnitude(s, k),
    decreases s.len(),
{
    if s.len() > 0 {
        lemma_item_magnitude_bounds(s.drop_last(), k);
    }
}

/// Summed absolute weights that fit give items whose weights fit.
pub proof fn lemma_items_fit<K: SortKey>(s: Seq<(K, i64)>)
    requires
        magnitude(s) <= i64::MAX,
    ensures
        items_fit(s),
{
    assert forall|k: K| #[trigger] item_magnitude(s, k) <= i64::MAX by {
        lemma_item_magnitude_bounds(s, k);
    }
}

proof fn lemma_item_magnitude_split<K: SortKey>(a: Seq<(K, i64)>, b: Seq<(K, i64)>, k: K)
    ensures
        item_magnitude(a + b, k) == item_magnitude(a, k) + item_magnitude(b, k),
    decreases b.len(),
{
    if b.len() == 0 {
        assert(a + b =~= a);
    } else {
        lemma_item_magnitude_split(a, b.drop_last(), k);
        assert((a + b).drop_last() =~= a + b.drop_last());
    }
}

/// In a consolidated sequence an item's absolute weight is its one entry's.
proof fn lemma_item_magnitude_consolidated<K: SortKey>(s: Seq<(K, i64)>, k: K)
    requires
        is_consolidated(s),
    ensures
        item_magnitude(s, k) == if weight(s, k) >= 0 {
            weight(s, k)
        } else {
            -weight(s, k)
        },
    decreases s.len(),
{
    if s.len() > 0 {
        let t = s.drop_last();
        assert forall|i: int, j: int| 0 <= i < j < t.len() implies t[i].0.key_lt(t[j].0) by {
            assert(s[i].0.key_lt(s[j].0));
        }
        lemma_item_magnitude_consolidated(t, k);
        if s.last().0 == k {
            assert forall|i: int| 0 <= i < t.len() implies #[trigger] t[i].0 != k by {
                assert(s[i].0.key_lt(s[s.len() - 1].0));
                K::key_lt_irreflexive(k);
            }
            lemma_weight_absent(t, k);
            lemma_item_magnitude_bounds(t, k);
        }
    }
}

/// The size of a weight.
pub open spec fn abs(x: i64) -> int {
    if x >= 0 {
        x as int
    } else {
        -(x as int)
    }
}

/// The sum of the absolute weights in `s`.
pub open spec fn magnitude<K: SortKey>(s: Seq<(K, i64)>) -> int
    decreases s.len(),
{
    if s.len() == 0 {
        0
    } else {
        magnitude(s.drop_last()) + if s.last().1 >= 0 {
            s.last().1 as int
        } else {
            -(s.last().1 as int)
        }
    }
}

pub open spec fn strictly_sorted<K: SortKey>(s: Seq<(K, i64)>) -> bool {
    forall|i: int, j: int| 0 <= i < j < s.len() ==> s[i].0.key_lt(s[j].0)
}

/// Items in strictly increasing order, none with weight zero.
pub open spec fn is_consolidated<K: SortKey>(s: Seq<(K, i64)>) -> bool {
    &&& strictly_sorted(s)
    &&& forall|i: int| 0 <= i < s.len() ==> #[trigger] s[i].1 != 0
}

/// `r` is the consolidated form of `s`: consolidated, and giving every item
/// the weight that `s` gives it.
pub open spec fn is_consolidation_of<K: SortKey>(r: Seq<(K, i64)>, s: Seq<(K, i64)>) -> bool {
    &&& is_consolidated(r)
    &&& forall|k: K| #[trigger] weight(r, k) == weight(s, k)
}

/// Consolidates `vec[off..]` in place: afterwards it holds each item once, in
/// increasing order, with the sum of its weights, and no item whose weights
/// sum to zero. The entries before `off` are left as they are.
pub fn consolidate<K: SortKey>(vec: &mut Vec<(K, i64)>, off: usize)
    requires
        off <= old(vec)@.len(),
        items_fit(old(vec)@.skip(off as int)),
    ensures
        final(vec)@.take(off as int) == old(vec)@.take(off as int),
        is_consolidation_of(final(vec)@.skip(off as int), old(vec)@.skip(off as int)),
        magnitude(final(vec)@.skip(off as int)) <= magnitude(old(vec)@.skip(off as int)),
        off <= final(vec)@.len(),
        final(vec)@ == old(vec)@.take(off as int) + final(vec)@.skip(off as int),
        is_consolidated(old(vec)@.skip(off as int)) ==> final(vec)@ == old(vec)@,
{
    let ghost head = vec@.take(off as int);
    let ghost src = vec@.skip(off as int);
    let tail = vec.split_off(off);
    assert(tail@ =~= src);
    assert(vec@ =~= head);
    let mut sorted = consolidated(tail);
    let ghost result = sorted@;
    vec.append(&mut sorted);
    assert(vec@.take(off as int) =~= head);
    assert(vec@.skip(off as int) =~= result);
    assert(vec@ =~= head + result);
    proof {
        if is_consolidated(src) {
            consolidation_unique(src, result, src);
            assert(old(vec)@ =~= head + src);
        }
    }
}

/// The consolidated form of `v`: sorted by merging consolidated halves.
fn consolidated<K: SortKey>(v: Vec<(K, i64)>) -> (r: Vec<(K, i64)>)
    requires
        items_fit(v@),
    ensures
        is_consolidation_of(r@, v@),
        magnitude(r@) <= magnitude(v@),
    decreases v@.len(),
{
    let n = v.len();
    if n <= 1 {
        if n == 1 && v[0].1 == 0 {
            proof {
                assert(v@.drop_last() =~= Seq::<(K, i64)>::empty());
                assert(weight(Seq::<(K, i64)>::empty(), v@[0].0) == 0);
                assert forall|k: K| #[trigger] weight(Seq::<(K, i64)>::empty(), k) == weight(v@, k) by {
                    assert(weight(Seq::<(K, i64)>::empty(), k) == 0);
                }
                lemma_magnitude_nonneg(v@);
            }
            return Vec::new();
        }
        proof {
            if n == 1 {
                K::key_lt_irreflexive(v@[0].0);
            }
        }
        return v;
    }
    let mut left = v;
    let ghost whole = left@;
    let right = left.split_off(n / 2);
    assert(whole =~= left@ + right@);
    proof {
        lemma_magnitude_split(left@, right@);
        lemma_magnitude_nonneg(left@);
        lemma_magnitude_nonneg(right@);
        assert forall|k: K| #[trigger] item_magnitude(left@, k) <= i64::MAX by {
            lemma_item_magnitude_split(left@, right@, k);
            lemma_item_magnitude_bounds(left@, k);
            lemma_item_magnitude_bounds(right@, k);
            assert(item_magnitude(whole, k) <= i64::MAX);
        }
        assert forall|k: K| #[trigger] item_magnitude(right@, k) <= i64::MAX by {
            lemma_item_magnitude_split(left@, right@, k);
            lemma_item_magnitude_bounds(left@, k);
            lemma_item_magnitude_bounds(right@, k);
            assert(item_magnitude(whole, k) <= i64::MAX);
        }
    }
    let l = consolidated(left);
    let r = consolidated(right);
    proof {
        assert forall|k: K| #[trigger] item_magnitude(l@, k) + item_magnitude(r@, k) <= i64::MAX by {
            lemma_item_magnitude_consolidated(l@, k);
            lemma_item_magnitude_consolidated(r@, k);
            lemma_item_magnitude_bounds(left@, k);
            lemma_item_magnitude_bounds(right@, k);
            lemma_item_magnitude_split(left@, right@, k);
            assert(weight(l@, k) == weight(left@, k));
            assert(weight(r@, k) == weight(right@, k));
            assert(item_magnitude(whole, k) <= i64::MAX);
        }
    }
    let m = merge_consolidated(l, r);
    proof {
        assert forall|k: K| #[trigger] weight(m@, k) == weight(whole, k) by {
            lemma_weight_split(l@, r@, k);
            lemma_weight_split(left@, right@, k);
        }
    }
    m
}

/// Merges two consolidated sequences into the consolidated form of both.
fn merge_consolidated<K: SortKey>(a: Vec<(K, i64)>, b: Vec<(K, i64)>) -> (r: Vec<(K, i64)>)
    requires
        is_consolidated(a@),
        is_consolidated(b@),
        forall|k: K| #[trigger] item_magnitude(a@, k) + item_magnitude(b@, k) <= i64::MAX,
    ensures
        is_consolidation_of(r@, a@ + b@),
        magnitude(r@) <= magnitude(a@) + magnitude(b@),
{
    let mut out: Vec<(K, i64)> = Vec::new();
    let mut i: usize = 0;
    let mut j: usize = 0;
    proof {
        assert(a@.take(0) =~= Seq::<(K, i64)>::empty());
        assert(b@.take(0) =~= Seq::<(K, i64)>::empty());
        assert(magnitude(Seq::<(K, i64)>::empty()) == 0);
        lemma_magnitude_nonneg(a@);
        lemma_magnitude_nonneg(b@);
    }
    while i < a.len() || j < b.len()
        invariant
            i <= a@.len(),
            j <= b@.len(),
            is_consolidated(a@),
            is_consolidated(b@),
            forall|k: K| #[trigger] item_magnitude(a@, k) + item_magnitude(b@, k) <= i64::MAX,
            is_consolidated(out@),
            forall|x: int, y: int|
                0 <= x < out@.len() && i <= y < a@.len() ==> out@[x].0.key_lt(a@[y].0),
            forall|x: int, y: int|
                0 <= x < out@.len() && j <= y < b@.len() ==> out@[x].0.key_lt(b@[y].0),
            forall|k: K|
                #[trigger] weight(out@, k) == weight(a@.take(i as int), k) + weight(
                    b@.take(j as int),
                    k,
                ),
            magnitude(out@) <= magnitude(a@.take(i as int)) + magnitude(b@.take(j as int)),
        decreases a@.len() + b@.len() - i - j,
    {
        let ghost m = out@;
        proof {
            if i < a@.len() {
                assert(a@.take(i + 1).drop_last() =~= a@.take(i as int));
            }
            if j < b@.len() {
                assert(b@.take(j + 1).drop_last() =~= b@.take(j as int));
            }
        }
        let take_a = j >= b.len() || (i < a.len() && a[i].0.less_than(&b[j].0));
        let take_b = !take_a && (i >= a.len() || b[j].0.less_than(&a[i].0));
        if take_a {
            let u = a[i];
            out.push(u);
            proof {
                assert(out@.drop_last() =~= m);
                assert forall|x: int, y: int|
                    0 <= x < out@.len() && j <= y < b@.len() implies out@[x].0.key_lt(b@[y].0) by {
                    if x == m.len() {
                        if y > j {
                            K::key_lt_transitive(u.0, b@[j as int].0, b@[y].0);
                        }
                    }
                }
                assert forall|x: int, y: int|
                    0 <= x < out@.len() && i + 1 <= y < a@.len() implies out@[x].0.key_lt(
                    a@[y].0,
                ) by {
                    if x < m.len() {
                        K::key_lt_transitive(m[x].0, a@[i as int].0, a@[y].0);
                    }
                }
                assert forall|k: K|
                    #[trigger] weight(out@, k) == weight(a@.take(i + 1), k) + weight(
                        b@.take(j as int),
                        k,
                    ) by {
                    assert(weight(out@, k) == weight(m, k) + if u.0 == k {
                        u.1 as int
                    } else {
                        0
                    });
                }
                assert(magnitude(out@) == magnitude(m) + abs(u.1));
                assert(magnitude(a@.take(i + 1)) == magnitude(a@.take(i as int)) + abs(u.1));
            }
            i = i + 1;
        } else if take_b {
            let u = b[j];
            out.push(u);
            proof {
                assert(out@.drop_last() =~= m);
                assert forall|x: int, y: int|
                    0 <= x < out@.len() && i <= y < a@.len() implies out@[x].0.key_lt(a@[y].0) by {
                    if x == m.len() {
                        if y > i {
                            K::key_lt_transitive(u.0, a@[i as int].0, a@[y].0);
                        }
                    }
                }
                assert forall|x: int, y: int|
                    0 <= x < out@.len() && j + 1 <= y < b@.len() implies out@[x].0.key_lt(
                    b@[y].0,
                ) by {
                    if x < m.len() {
                        K::key_lt_transitive(m[x].0, b@[j as int].0, b@[y].0);
                    }
                }
                assert forall|k: K|
                    #[trigger] weight(out@, k) == weight(a@.take(i as int), k) + weight(
                        b@.take(j + 1),
                        k,
                    ) by {
                    assert(weight(out@, k) == weight(m, k) + if u.0 == k {
                        u.1 as int
                    } else {
                        0
                    });
                }
                assert(magnitude(out@) == magnitude(m) + abs(u.1));
                assert(magnitude(b@.take(j + 1)) == magnitude(b@.take(j as int)) + abs(u.1));
            }
            j = j + 1;
        } else {
            let u = a[i];
            let w = b[j];
            proof {
                K::key_lt_total(u.0, w.0);
                lemma_weight_sorted(a@, u.0, i as int);
                lemma_weight_sorted(b@, u.0, j as int);
                lemma_item_magnitude_bounds(a@, u.0);
                lemma_item_magnitude_bounds(b@, u.0);
                assert(item_magnitude(a@, u.0) + item_magnitude(b@, u.0) <= i64::MAX);
            }
            let total = u.1 + w.1;
            if total != 0 {
                out.push((u.0, total));
            }
            proof {
                assert forall|x: int, y: int|
                    0 <= x < out@.len() && i + 1 <= y < a@.len() implies out@[x].0.key_lt(
                    a@[y].0,
                ) by {
                    if x < m.len() {
                        K::key_lt_transitive(m[x].0, a@[i as int].0, a@[y].0);
                    }
                }
                assert forall|x: int, y: int|
                    0 <= x < out@.len() && j + 1 <= y < b@.len() implies out@[x].0.key_lt(
                    b@[y].0,
                ) by {
                    if x < m.len() {
                        K::key_lt_transitive(m[x].0, b@[j as int].0, b@[y].0);
                    }
                }
                if total != 0 {
                    assert(out@.drop_last() =~= m);
                    assert(magnitude(out@) == magnitude(m) + abs(total));
                }
                assert forall|k: K|
                    #[trigger] weight(out@, k) == weight(a@.take(i + 1), k) + weight(
                        b@.take(j + 1),
                        k,
                    ) by {
                    if total != 0 {
                        assert(weight(out@, k) == weight(m, k) + if u.0 == k {
                            total as int
                        } else {
                            0
                        });
                    }
                }
                assert(magnitude(a@.take(i + 1)) == magnitude(a@.take(i as int)) + abs(u.1));
                assert(magnitude(b@.take(j + 1)) == magnitude(b@.take(j as int)) + abs(w.1));
            }
            i = i + 1;
            j = j + 1;
        }
    }
    proof {
        assert(a@.take(a@.len() as int) =~= a@);
        assert(b@.take(b@.len() as int) =~= b@);
        assert forall|k: K| #[trigger] weight(out@, k) == weight(a@ + b@, k) by {
            lemma_weight_split(a@, b@, k);
        }
    }
    out
}

/// Consolidation is idempotent: consolidating a consolidated sequence leaves
/// it as it is.
pub proof fn consolidation_idempotent<K: SortKey>(v: Seq<(K, i64)>, r1: Seq<(K, i64)>, r2: Seq<(K, i64)>)
    requires
        is_consolidation_of(r1, v),
        is_consolidation_of(r2, r1),
    ensures
        r2 == r1,
{
    consolidation_unique(r1, r1, r2);
}

/// A sequence has only one consolidated form.
pub proof fn consolidation_unique<K: SortKey>(v: Seq<(K, i64)>, r1: Seq<(K, i64)>, r2: Seq<(K, i64)>)
    requires
        is_consolidated(r1),
        is_consolidated(r2),
        forall|k: K| #[trigger] weight(r1, k) == weight(v, k),
        forall|k: K| #[trigger] weight(r2, k) == weight(v, k),
    ensures
        r1 == r2,
    decreases r1.len() + r2.len(),
{
    if r1.len() == 0 && r2.len() == 0 {
        assert(r1 =~= r2);
    } else if r1.len() == 0 {
        lemma_weight_sorted(r2, r2[0].0, 0);
        lemma_weight_absent(r1, r2[0].0);
    } else if r2.len() == 0 {
        lemma_weight_sorted(r1, r1[0].0, 0);
        lemma_weight_absent(r2, r1[0].0);
    } else {
        let a = r1.last();
        let b = r2.last();
        lemma_weight_sorted(r1, a.0, r1.len() - 1);
        lemma_weight_sorted(r2, b.0, r2.len() - 1);
        K::key_lt_total(a.0, b.0);
        if a.0.key_lt(b.0) {
            assert forall|i: int| 0 <= i < r1.len() implies #[trigger] r1[i].0 != b.0 by {
                if i < r1.len() - 1 {
                    K::key_lt_transitive(r1[i].0, a.0, b.0);
                    K::key_lt_irreflexive(b.0);
                } else {
                    K::key_lt_irreflexive(b.0);
                }
            }
            lemma_weight_absent(r1, b.0);
        } else if b.0.key_lt(a.0) {
            assert forall|i: int| 0 <= i < r2.len() implies #[trigger] r2[i].0 != a.0 by {
                if i < r2.len() - 1 {
                    K::key_lt_transitive(r2[i].0, b.0, a.0);
                    K::key_lt_irreflexive(a.0);
                } else {
                    K::key_lt_irreflexive(a.0);
                }
            }
            lemma_weight_absent(r2, a.0);
        }
        let x1 = r1.drop_last();
        let x2 = r2.drop_last();
        assert(a == b);
        assert forall|k: K| #[trigger] weight(x1, k) == weight(x2, k) by {
            assert(weight(r1, k) == weight(x1, k) + if a.0 == k {
                a.1 as int
            } else {
                0
            });
            assert(weight(r2, k) == weight(x2, k) + if b.0 == k {
                b.1 as int
            } else {
                0
            });
        }
        consolidation_unique(x1, x1, x2);
        assert(r1 =~= x1.push(a));
        assert(r2 =~= x2.push(b));
    }
}

pub proof fn lemma_weight_absent<K: SortKey>(s: Seq<(K, i64)>, k: K)
    requires
        forall|i: int| 0 <= i < s.len() ==> #[trigger] s[i].0 != k,
    ensures
        weight(s, k) == 0,
    decreases s.len(),
{
    if s.len() > 0 {
        lemma_weight_absent(s.drop_last(), k);
    }
}

/// In a strictly sorted sequence the weight of an item is the weight of its
/// one entry, at `p`.
pub proof fn lemma_weight_sorted<K: SortKey>(s: Seq<(K, i64)>, k: K, p: int)
    requires
        strictly_sorted(s),
        0 <= p < s.len(),
        s[p].0 == k,
    ensures
        weight(s, k) == s[p].1 as int,
    decreases s.len(),
{
    let t = s.drop_last();
    if p == s.len() - 1 {
        assert forall|i: int| 0 <= i < t.len() implies #[trigger] t[i].0 != k by {
            assert(s[i].0.key_lt(s[p].0));
            K::key_lt_irreflexive(k);
        }
        lemma_weight_absent(t, k);
    } else {
        lemma_weight_sorted(t, k, p);
        assert(s[p].0.key_lt(s.last().0));
        K::key_lt_irreflexive(k);
    }
}

pub proof fn lemma_weight_split<K: SortKey>(a: Seq<(K, i64)>, b: Seq<(K, i64)>, k: K)
    ensures
        weight(a + b, k) == weight(a, k) + weight(b, k),
    decreases b.len(),
{
    if b.len() == 0 {
        assert(a + b =~= a);
    } else {
        lemma_weight_split(a, b.drop_last(), k);
        assert((a + b).drop_last() =~= a + b.drop_last());
    }
}

pub proof fn lemma_magnitude_split<K: SortKey>(a: Seq<(K, i64)>, b: Seq<(K, i64)>)
    ensures
        magnitude(a + b) == magnitude(a) + magnitude(b),
    decreases b.len(),
{
    if b.len() == 0 {
        assert(a + b =~= a);
    } else {
        lemma_magnitude_split(a, b.drop_last());
        assert((a + b).drop_last() =~= a + b.drop_last());
    }
}

pub proof fn lemma_weight_bound<K: SortKey>(s: Seq<(K, i64)>, k: K)
    ensures
        -magnitude(s) <= weight(s, k) <= magnitude(s),
        magnitude(s) >= 0,
    decreases s.len(),
{
    if s.len() > 0 {
        lemma_weight_bound(s.drop_last(), k);
    }
}

pub proof fn lemma_magnitude_nonneg<K: SortKey>(s: Seq<(K, i64)>)
    ensures
        magnitude(s) >= 0,
    decreases s.len(),
{
    if s.len() > 0 {
        lemma_magnitude_nonneg(s.drop_last());
    }
}

pub proof fn lemma_magnitude_prefix<K: SortKey>(s: Seq<(K, i64)>, m: int)
    requires
        0 <= m <= s.len(),
    ensures
        magnitude(s.take(m)) <= magnitude(s),
    decreases s.len(),
{
    if m < s.len() {
        assert(s.take(m) =~= s.drop_last().take(m));
        lemma_magnitude_prefix(s.drop_last(), m);
        lemma_magnitude_nonneg(s.drop_last());
    } else {
        assert(s.take(m) =~= s);
    }
}

/// The summed weights in `s` of the items that satisfy `p`.
pub open spec fn filtered_weight<K: SortKey>(s: Seq<(K, i64)>, p: spec_fn(K) -> bool) -> int
    decreases s.len(),
{
    if s.len() == 0 {
        0
    } else {
        filtered_weight(s.drop_last(), p) + if p(s.last().0) {
            s.last().1 as int
        } else {
            0
        }
    }
}

/// `s` without the entries of item `k`.
pub open spec fn without<K: SortKey>(s: Seq<(K, i64)>, k: K) -> Seq<(K, i64)>
    decreases s.len(),
{
    if s.len() == 0 {
        s
    } else if s.last().0 == k {
        without(s.drop_last(), k)
    } else {
        without(s.drop_last(), k).push(s.last())
    }
}

proof fn lemma_without<K: SortKey>(s: Seq<(K, i64)>, p: spec_fn(K) -> bool, k: K)
    ensures
        filtered_weight(s, p) == filtered_weight(without(s, k), p) + if p(k) {
            weight(s, k)
        } else {
            0
        },
        forall|k2: K|
            #[trigger] weight(without(s, k), k2) == if k2 == k {
                0
            } else {
                weight(s, k2)
            },
        without(s, k).len() <= s.len(),
        s.len() > 0 && s.last().0 == k ==> without(s, k).len() < s.len(),
    decreases s.len(),
{
    if s.len() > 0 {
        let t = s.drop_last();
        lemma_without(t, p, k);
        if s.last().0 != k {
            let w = without(t, k);
            assert(w.push(s.last()).drop_last() =~= w);
            assert forall|k2: K| #[trigger] weight(without(s, k), k2) == if k2 == k {
                0
            } else {
                weight(s, k2)
            } by {
                assert(weight(without(t, k), k2) == if k2 == k {
                    0
                } else {
                    weight(t, k2)
                });
            }
        } else {
            assert forall|k2: K| #[trigger] weight(without(s, k), k2) == if k2 == k {
                0
            } else {
                weight(s, k2)
            } by {
                assert(weight(without(t, k), k2) == if k2 == k {
                    0
                } else {
                    weight(t, k2)
                });
            }
        }
    }
}

/// Sequences that give every item the same weight give the same summed
/// weight to any set of items.
pub proof fn lemma_equal_weights_filtered<K: SortKey>(
    a: Seq<(K, i64)>,
    b: Seq<(K, i64)>,
    p: spec_fn(K) -> bool,
)
    requires
        forall|k: K| #[trigger] weight(a, k) == weight(b, k),
    ensures
        filtered_weight(a, p) == filtered_weight(b, p),
    decreases a.len() + b.len(),
{
    if a.len() > 0 || b.len() > 0 {
        let k = if a.len() > 0 {
            a.last().0
        } else {
            b.last().0
        };
        lemma_without(a, p, k);
        lemma_without(b, p, k);
        let a2 = without(a, k);
        let b2 = without(b, k);
        assert forall|k2: K| #[trigger] weight(a2, k2) == weight(b2, k2) by {
            assert(weight(a2, k2) == if k2 == k {
                0
            } else {
                weight(a, k2)
            });
            assert(weight(b2, k2) == if k2 == k {
                0
            } else {
                weight(b, k2)
            });
        }
        lemma_equal_weights_filtered(a2, b2, p);
    }
}

pub proof fn lemma_filtered_split<K: SortKey>(
    a: Seq<(K, i64)>,
    b: Seq<(K, i64)>,
    p: spec_fn(K) -> bool,
)
    ensures
        filtered_weight(a + b, p) == filtered_weight(a, p) + filtered_weight(b, p),
    decreases b.len(),
{
    if b.len() == 0 {
        assert(a + b =~= a);
    } else {
        lemma_filtered_split(a, b.drop_last(), p);
        assert((a + b).drop_last() =~= a + b.drop_last());
    }
}

/// Two predicates that agree on the items of `s` give the same summed weight.
pub proof fn lemma_filtered_agree<K: SortKey>(
    s: Seq<(K, i64)>,
    p: spec_fn(K) -> bool,
    q: spec_fn(K) -> bool,
)
    requires
        forall|i: int| 0 <= i < s.len() ==> p(#[trigger] s[i].0) == q(s[i].0),
    ensures
        filtered_weight(s, p) == filtered_weight(s, q),
    decreases s.len(),
{
    if s.len() > 0 {
        lemma_filtered_agree(s.drop_last(), p, q);
        assert(p(s[s.len() - 1].0) == q(s[s.len() - 1].0));
    }
}

} // verus!
