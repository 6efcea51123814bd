use std::collections::BTreeMap;

use dd_trace::agent::TraceAgent;
use dd_trace::arrange::ArrangeState;
use dd_trace::batch::{Builder, Entry, Update};
use dd_trace::identifier::BatchIdentifier;
use dd_trace::lookup::{accumulate_at, lookup, LookupState};
use dd_trace::trace::Spine;

fn u(key: u64, val: u64, time: u64, diff: i64) -> Update {
    (Entry { key, val, time }, diff)
}

#[test]
fn lookup_answers_as_of_each_time() {
    let k1 = 1;
    let x = 10;
    let y = 20;
    let updates = vec![u(k1, x, 1, 1), u(k1, x, 3, -1), u(k1, y, 2, 1)];
    let answers = lookup(&updates, &vec![(k1, 2), (k1, 3)]);
    assert_eq!(answers[0], vec![(x, 1), (y, 1)]);
    assert_eq!(answers[1], vec![(y, 1)]);
}

#[test]
fn lookup_of_unknown_key_or_early_time_is_empty() {
    let updates = vec![u(1, 10, 5, 2), u(2, 10, 1, 1)];
    let answers = lookup(&updates, &vec![(3, 9), (1, 4), (1, 5)]);
    assert!(answers[0].is_empty());
    assert!(answers[1].is_empty());
    assert_eq!(answers[2], vec![(10, 2)]);
}

#[test]
fn accumulate_at_sums_over_batches() {
    let updates = vec![u(4, 1, 0, 1), u(4, 1, 2, 1), u(4, 2, 1, -3)];
    assert_eq!(accumulate_at(&updates, 4, 2), vec![(1, 2), (2, -3)]);
}

#[test]
fn arrange_seals_once_the_frontier_passes() {
    let (mut shared, reader, writer) = TraceAgent::new(Spine::new());
    let mut op = ArrangeState::new(BatchIdentifier::new(vec![0, 1], 0), &shared);
    let a = 1u64;
    let b = 2u64;
    let raw = vec![
        (1u64, vec![((a, 0u64), 1u64, 1i64), ((b, 0), 1, 2)]),
        (2, vec![((a, 0), 2, -1), ((b, 0), 2, 1)]),
        (3, vec![((a, 0), 3, 5), ((b, 0), 3, -3)]),
    ];
    let mut input = raw.clone();
    let out = op.step(&mut shared, &writer, &mut input, &vec![1]);
    assert!(out.is_empty());
    assert!(input.is_empty());
    assert_eq!(op.capability(), Some(1));
    assert!(reader.cursor_through(&shared, &vec![4]).is_none());

    let mut none = vec![];
    let out = op.step(&mut shared, &writer, &mut none, &vec![4]);
    assert_eq!(out.len(), 1);
    assert_eq!(out[0].0, 1);
    assert_eq!(op.capability(), None);

    let cursor = reader.cursor_through(&shared, &vec![4]).unwrap();
    let contents = cursor.updates(shared.trace());
    let mut seen: BTreeMap<u64, i64> = BTreeMap::new();
    for (e, d) in contents {
        assert!(e.time <= 3);
        *seen.entry(e.key).or_insert(0) += d;
    }
    let mut expected: BTreeMap<u64, i64> = BTreeMap::new();
    for (_, msgs) in raw {
        for ((k, _), t, d) in msgs {
            if t <= 3 {
                *expected.entry(k).or_insert(0) += d;
            }
        }
    }
    assert_eq!(seen, expected);
}

#[test]
fn arrange_keeps_later_updates_pending() {
    let (mut shared, reader, writer) = TraceAgent::new(Spine::new());
    let mut op = ArrangeState::new(BatchIdentifier::new(vec![2], 1), &shared);
    let mut input = vec![(1u64, vec![((7u64, 0u64), 1u64, 1i64), ((7, 0), 5, 1)])];
    let out = op.step(&mut shared, &writer, &mut input, &vec![3]);
    assert_eq!(out.len(), 1);
    assert_eq!(out[0].1.updates(), &vec![u(7, 0, 1, 1)]);
    assert_eq!(op.capability(), Some(5));
    assert_eq!(shared.trace().upper(), vec![3]);

    let listener = reader.new_listener(&mut shared);
    let mut none = vec![];
    let out = op.step(&mut shared, &writer, &mut none, &vec![]);
    assert_eq!(out.len(), 1);
    assert_eq!(out[0].1.updates(), &vec![u(7, 0, 5, 1)]);
    assert_eq!(shared.trace().upper(), Vec::<u64>::new());
    let replayed = listener.next(&mut shared).unwrap();
    assert!(replayed.data.is_some());
    assert_eq!(listener.next(&mut shared).unwrap().frontier, vec![3]);
    let live = listener.next(&mut shared).unwrap();
    assert_eq!(live.frontier, Vec::<u64>::new());
    assert_eq!(live.data.unwrap().0, 5);
}

#[test]
fn arrange_recovers_earlier_batches_as_history() {
    let mut b0 = Builder::new();
    b0.push((1, 0, 1, 2));
    let first = b0.done(&vec![0], &vec![3], &vec![0], BatchIdentifier::new(vec![5], 0));
    let second = Builder::new().done(&vec![3], &vec![6], &vec![0], BatchIdentifier::new(vec![5], 0));

    let (mut shared, reader, writer) = TraceAgent::new(Spine::new());
    let listener = reader.new_listener(&mut shared);
    let mut op = ArrangeState::recover(BatchIdentifier::new(vec![5], 0), &mut shared, &writer, &vec![first, second]);
    assert_eq!(shared.trace().upper(), vec![6]);
    assert_eq!(reader.map_batches(&shared).len(), 2);
    assert_eq!(op.capability(), None);

    assert!(listener.next(&mut shared).unwrap().data.is_none());
    let replayed = listener.next(&mut shared).unwrap();
    assert_eq!(replayed.frontier, vec![0]);
    assert_eq!(replayed.data.unwrap().1.updates(), &vec![u(1, 0, 1, 2)]);
    assert!(listener.next(&mut shared).unwrap().data.is_some());
    assert_eq!(listener.next(&mut shared).unwrap().frontier, vec![6]);

    let mut input = vec![(6u64, vec![((1u64, 0u64), 7u64, 1i64)])];
    let out = op.step(&mut shared, &writer, &mut input, &vec![8]);
    assert_eq!(out.len(), 1);
    assert_eq!(out[0].1.lower(), &vec![6]);
    assert_eq!(out[0].1.updates(), &vec![u(1, 0, 7, 1)]);
}

#[test]
fn lookup_state_holds_queries_until_the_trace_passes_them() {
    let (mut shared, reader, writer) = TraceAgent::new(Spine::new());
    let mut b = Builder::new();
    b.push((1, 10, 1, 1));
    b.push((1, 20, 2, 1));
    writer.seal(&mut shared, &vec![3], Some((0, b.done(&vec![0], &vec![3], &vec![0], BatchIdentifier::new(vec![], 0)))));
    let keep = reader.clone(&mut shared);
    let mut state = LookupState::new(reader, &mut shared);
    assert_eq!(keep.distinguish_frontier(&shared), vec![0]);

    let mut input = vec![(1u64, vec![(1u64, 1u64), (1, 5)])];
    let out = state.step(&mut shared, &mut input, &vec![2], &vec![3]);
    assert!(input.is_empty());
    assert_eq!(out.len(), 1);
    assert_eq!(out[0].0, (1, 1));
    assert_eq!(out[0].1, vec![(10, 1)]);

    let mut none = vec![];
    let out = state.step(&mut shared, &mut none, &vec![9], &vec![4]);
    assert!(out.is_empty());

    let out = state.step(&mut shared, &mut none, &vec![9], &vec![6]);
    assert_eq!(out.len(), 1);
    assert_eq!(out[0].0, (1, 5));
    assert_eq!(out[0].1, vec![(10, 1), (20, 1)]);
}
