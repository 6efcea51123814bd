//! Frontiers of logical times.
//!
//! Times are totally ordered, so a frontier (an antichain) holds at most one
//! time: `[t]` says that no time before `t` remains, and `[]` says that no
//! time remains at all.

use vstd::prelude::*;

verus! {

/// The least time.
pub const MINIMUM: u64 = 0;

pub open spec fn is_frontier(f: Seq<u64>) -> bool {
    f.len() <= 1
}

/// `t` is at or beyond the frontier `f`.
pub open spec fn beyond(f: Seq<u64>, t: u64) -> bool {
    f.len() > 0 && f[0] <= t
}

/// Every time at or beyond `later` is at or beyond `earlier`: `later` has not
/// gone back from `earlier`.
pub open spec fn dominates(later: Seq<u64>, earlier: Seq<u64>) -> bool {
    later.len() == 0 || (earlier.len() > 0 && earlier[0] <= later[0])
}

/// The most conservative of two frontiers: the times at or beyond it are
/// those at or beyond either.
pub open spec fn meet(a: Seq<u64>, b: Seq<u64>) -> Seq<u64> {
    if a.len() == 0 {
        b
    } else if b.len() == 0 {
        a
    } else if a[0] <= b[0] {
        a
    } else {
        b
    }
}

/// `t` moved forward to the frontier `f`, where it is behind it.
pub open spec fn advance_time(t: u64, f: Seq<u64>) -> u64 {
    if f.len() > 0 && t < f[0] {
        f[0]
    } else {
        t
    }
}

/// Reports whether `t` is at or beyond `frontier`.
pub fn less_equal(frontier: &Vec<u64>, t: u64) -> (r: bool)
    ensures
        r == beyond(frontier@, t),
{
    frontier.len() > 0 && frontier[0] <= t
}

/// Reports whether `later` has not gone back from `earlier`.
pub fn frontier_dominates(later: &Vec<u64>, earlier: &Vec<u64>) -> (r: bool)
    ensures
        r == dominates(later@, earlier@),
{
    later.len() == 0 || (earlier.len() > 0 && earlier[0] <= later[0])
}

/// A copy of a frontier.
pub fn copy_frontier(f: &Vec<u64>) -> (r: Vec<u64>)
    ensures
        r@ == f@,
{
    let mut r: Vec<u64> = Vec::new();
    let mut i: usize = 0;
    while i < f.len()
        invariant
            i <= f@.len(),
            r@ == f@.take(i as int),
        decreases f@.len() - i,
    {
        r.push(f[i]);
        assert(r@ =~= f@.take(i + 1));
        i = i + 1;
    }
    assert(f@.take(f@.len() as int) =~= f@);
    r
}

/// The meet of two frontiers.
pub fn frontier_meet(a: &Vec<u64>, b: &Vec<u64>) -> (r: Vec<u64>)
    ensures
        r@ == meet(a@, b@),
{
    if a.len() == 0 {
        copy_frontier(b)
    } else if b.len() == 0 {
        copy_frontier(a)
    } else if a[0] <= b[0] {
        copy_frontier(a)
    } else {
        copy_frontier(b)
    }
}

/// Moves `t` forward to `frontier`, where it is behind it.
pub fn advance_by(t: u64, frontier: &Vec<u64>) -> (r: u64)
    ensures
        r == advance_time(t, frontier@),
{
    if frontier.len() > 0 && t < frontier[0] {
        frontier[0]
    } else {
        t
    }
}

/// A time is at or beyond the meet of two frontiers exactly when it is at or
/// beyond one of them.
pub proof fn meet_is_lower_envelope(a: Seq<u64>, b: Seq<u64>, t: u64)
    ensures
        beyond(meet(a, b), t) == (beyond(a, t) || beyond(b, t)),
        is_frontier(a) && is_frontier(b) ==> is_frontier(meet(a, b)),
{
}

} // verus!
