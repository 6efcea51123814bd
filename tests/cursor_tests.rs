use dd_trace::agent::TraceAgent;
use dd_trace::arrange::as_collection;
use dd_trace::batch::{Batch, Builder};
use dd_trace::cursor::BatchCursor;
use dd_trace::identifier::BatchIdentifier;
use dd_trace::import::{covering, ImportState};
use dd_trace::trace::Spine;

fn sample() -> Batch {
    let mut b = Builder::new();
    for u in [(1, 1, 0, 1), (1, 1, 2, -1), (1, 3, 1, 2), (4, 2, 0, 5), (6, 1, 1, 1), (6, 1, 3, 1)] {
        b.push(u);
    }
    b.done(&vec![0], &vec![4], &vec![0], BatchIdentifier::new(vec![], 0))
}

#[test]
fn cursor_walks_keys_and_values() {
    let batch = sample();
    let mut c = batch.cursor();
    let mut seen = Vec::new();
    while c.key_valid(&batch) {
        while c.val_valid(&batch) {
            seen.push((c.key(&batch), c.val(&batch), c.map_times(&batch)));
            c.step_val(&batch);
        }
        c.step_key(&batch);
    }
    assert_eq!(
        seen,
        vec![
            (1, 1, vec![(0, 1), (2, -1)]),
            (1, 3, vec![(1, 2)]),
            (4, 2, vec![(0, 5)]),
            (6, 1, vec![(1, 1), (3, 1)]),
        ]
    );
}

#[test]
fn cursor_seeks_forward() {
    let batch = sample();
    let mut c = BatchCursor::new(&batch);
    c.seek_key(&batch, 3);
    assert_eq!(c.key(&batch), 4);
    c.seek_key(&batch, 6);
    assert_eq!(c.key(&batch), 6);
    c.seek_key(&batch, 7);
    assert!(!c.key_valid(&batch));
    c.rewind_keys(&batch);
    assert_eq!(c.key(&batch), 1);
    c.seek_val(&batch, 2);
    assert_eq!(c.val(&batch), 3);
    c.seek_val(&batch, 4);
    assert!(!c.val_valid(&batch));
    c.rewind_vals(&batch);
    assert_eq!(c.val(&batch), 1);
}

#[test]
fn as_collection_flattens_a_batch() {
    let batch = sample();
    let flat = as_collection(&batch);
    assert_eq!(flat.len(), 6);
    assert_eq!(flat[0], ((1, 1), 0, 1));
    assert_eq!(flat[5], ((6, 1), 3, 1));
}

#[test]
fn covering_finds_an_earlier_capability() {
    assert_eq!(covering(&vec![3], 5), Some(3));
    assert_eq!(covering(&vec![3], 2), None);
    assert_eq!(covering(&vec![], 2), None);
}

#[test]
fn import_sends_history_then_follows_frontiers() {
    let (mut shared, reader, writer) = TraceAgent::new(Spine::new());
    writer.seal(&mut shared, &vec![4], Some((0, sample())));
    let listener = reader.new_listener(&mut shared);
    let mut source = ImportState::new();
    assert_eq!(source.capabilities(), &vec![0]);
    let sent = source.step(&mut shared, &listener);
    assert_eq!(sent.len(), 1);
    assert_eq!(sent[0].0, 0);
    assert_eq!(sent[0].1, 0);
    assert_eq!(sent[0].2.len(), 6);
    assert_eq!(source.capabilities(), &vec![4]);
    writer.seal(&mut shared, &vec![7], None);
    let sent = source.step(&mut shared, &listener);
    assert!(sent.is_empty());
    assert_eq!(source.capabilities(), &vec![7]);
}
