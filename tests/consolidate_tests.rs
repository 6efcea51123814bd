use dd_trace::consolidate::consolidate;

#[test]
fn consolidation_sums_and_drops_zeros() {
    let a = 1u64;
    let b = 2u64;
    let mut v = vec![(a, 3), (b, -2), (a, -3), (a, 5)];
    consolidate(&mut v, 0);
    assert_eq!(v, vec![(a, 5), (b, -2)]);
}

#[test]
fn consolidation_is_idempotent() {
    let mut v = vec![(9u64, 1i64), (4, 2), (9, -1), (1, 7), (4, 1), (3, 0)];
    consolidate(&mut v, 0);
    assert_eq!(v, vec![(1, 7), (4, 3)]);
    let once = v.clone();
    consolidate(&mut v, 0);
    assert_eq!(v, once);
}

#[test]
fn consolidation_keeps_the_prefix() {
    let mut v = vec![(5u64, 1i64), (5, 1), (2, 4), (1, 1), (2, -4)];
    consolidate(&mut v, 2);
    assert_eq!(v, vec![(5, 1), (5, 1), (1, 1)]);
}

#[test]
fn consolidation_of_empty_and_cancelling() {
    let mut v: Vec<(u64, i64)> = vec![];
    consolidate(&mut v, 0);
    assert!(v.is_empty());
    let mut w = vec![(3u64, 2i64), (3, -2)];
    consolidate(&mut w, 0);
    assert!(w.is_empty());
}

#[test]
fn consolidation_at_the_end() {
    let mut v = vec![(3u64, 2i64)];
    consolidate(&mut v, 1);
    assert_eq!(v, vec![(3, 2)]);
}

#[test]
fn consolidation_bounds_each_item_separately() {
    let big = 1i64 << 62;
    let mut v = vec![(2u64, big), (1u64, big), (2, big - 1), (1, -big)];
    consolidate(&mut v, 0);
    assert_eq!(v, vec![(2, big + (big - 1))]);
}

#[test]
fn consolidating_twice_with_an_offset_changes_nothing() {
    let mut v = vec![(9u64, 1i64), (4, 2), (4, -2), (1, 3), (1, 1)];
    consolidate(&mut v, 1);
    assert_eq!(v, vec![(9, 1), (1, 4)]);
    let once = v.clone();
    consolidate(&mut v, 1);
    assert_eq!(v, once);
}
