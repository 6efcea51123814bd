use dd_trace::batch::{Batcher, Builder, Entry, Merger};
use dd_trace::identifier::BatchIdentifier;

fn e(key: u64, val: u64, time: u64) -> Entry {
    Entry { key, val, time }
}

fn id() -> BatchIdentifier {
    BatchIdentifier::new(vec![1], 0)
}

#[test]
fn builder_keeps_order_and_description() {
    let mut b = Builder::with_capacity(2);
    b.push((1, 1, 0, 2));
    b.push((1, 2, 0, -1));
    let batch = b.done(&vec![0], &vec![3], &vec![0], id());
    assert_eq!(batch.len(), 2);
    assert_eq!(batch.updates(), &vec![(e(1, 1, 0), 2), (e(1, 2, 0), -1)]);
    assert_eq!(batch.lower(), &vec![0]);
    assert_eq!(batch.upper(), &vec![3]);
}

#[test]
fn batcher_seals_updates_before_upper() {
    let mut batcher = Batcher::new();
    let mut input = vec![((2, 0), 1, 1), ((1, 0), 3, 1), ((1, 0), 1, 1), ((2, 0), 1, -1), ((1, 0), 1, 1)];
    batcher.push_batch(&mut input);
    assert!(input.is_empty());
    assert_eq!(batcher.frontier(), vec![1]);
    let batch = batcher.seal(&vec![2], id());
    assert_eq!(batch.updates(), &vec![(e(1, 0, 1), 2)]);
    assert_eq!(batch.lower(), &vec![0]);
    assert_eq!(batch.upper(), &vec![2]);
    assert_eq!(batcher.lower(), &vec![2]);
    assert_eq!(batcher.frontier(), vec![3]);
    let rest = batcher.seal(&vec![], id());
    assert_eq!(rest.updates(), &vec![(e(1, 0, 3), 1)]);
    assert_eq!(batcher.frontier(), Vec::<u64>::new());
}

#[test]
fn batcher_with_lower_starts_there() {
    let mut batcher = Batcher::with_lower(vec![5]);
    let batch = batcher.seal(&vec![7], id());
    assert_eq!(batch.lower(), &vec![5]);
    assert_eq!(batch.len(), 0);
}

#[test]
fn merge_with_little_fuel_resumes() {
    let mut b1 = Builder::new();
    b1.push((1, 0, 0, 1));
    b1.push((2, 0, 0, 1));
    b1.push((3, 0, 0, 5));
    let a = b1.done(&vec![0], &vec![2], &vec![0], id());
    let mut b2 = Builder::new();
    b2.push((2, 0, 0, -1));
    b2.push((3, 0, 1, 1));
    let b = b2.done(&vec![2], &vec![4], &vec![0], id());

    let mut merger = Merger::begin_merge(&a, &b);
    let mut fuel = 2usize;
    merger.work(&a, &b, &mut fuel);
    assert_eq!(fuel, 0);
    let mut fuel = 10usize;
    merger.work(&a, &b, &mut fuel);
    assert!(fuel > 0);
    let merged = merger.done(&a, &b);
    assert_eq!(merged.updates(), &vec![(e(1, 0, 0), 1), (e(3, 0, 0), 5), (e(3, 0, 1), 1)]);
    assert_eq!(merged.lower(), &vec![0]);
    assert_eq!(merged.upper(), &vec![4]);
}

#[test]
fn advance_ref_moves_times_and_consolidates() {
    let mut b = Builder::new();
    b.push((1, 0, 1, 2));
    b.push((1, 0, 3, 1));
    b.push((1, 0, 5, 1));
    b.push((2, 0, 1, 1));
    b.push((2, 0, 2, -1));
    let batch = b.done(&vec![0], &vec![6], &vec![0], id());
    let advanced = batch.advance_ref(&vec![4]);
    assert_eq!(advanced.updates(), &vec![(e(1, 0, 4), 3), (e(1, 0, 5), 1)]);
    assert_eq!(advanced.description().since(), &vec![4]);
}
