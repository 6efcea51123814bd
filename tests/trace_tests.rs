use dd_trace::agent::TraceAgent;
use dd_trace::batch::{Batch, Builder, Entry};
use dd_trace::enter::TraceEnter;
use dd_trace::freeze::{FreezeAt, TraceFreeze};
use dd_trace::identifier::BatchIdentifier;
use dd_trace::trace::Spine;

fn batch(lower: u64, upper: Vec<u64>, updates: &[(u64, u64, u64, i64)]) -> Batch {
    let mut b = Builder::new();
    for u in updates {
        b.push(*u);
    }
    b.done(&vec![lower], &upper, &vec![0], BatchIdentifier::new(vec![0], 0))
}

#[test]
fn contiguous_inserts_succeed_and_gaps_fail() {
    let mut trace = Spine::new();
    assert!(trace.insert(batch(0, vec![2], &[(1, 1, 1, 1)])).is_ok());
    assert!(trace.insert(batch(2, vec![5], &[])).is_ok());
    assert!(trace.insert(batch(6, vec![8], &[])).is_err());
    assert!(trace.insert(batch(2, vec![8], &[])).is_err());
    assert_eq!(trace.upper(), vec![5]);
    assert_eq!(trace.map_batches().len(), 2);
    trace.close();
    assert_eq!(trace.upper(), Vec::<u64>::new());
}

#[test]
fn cursor_through_needs_a_boundary() {
    let mut trace = Spine::new();
    trace.insert(batch(0, vec![2], &[(1, 1, 1, 1)])).ok().unwrap();
    trace.insert(batch(2, vec![5], &[(2, 1, 3, 1)])).ok().unwrap();
    let c = trace.cursor_through(&vec![2]).unwrap();
    assert_eq!(c.updates(&trace), vec![(Entry { key: 1, val: 1, time: 1 }, 1)]);
    assert_eq!(trace.cursor_through(&vec![5]).unwrap().batches, 2);
    assert_eq!(trace.cursor_through(&vec![0]).unwrap().batches, 0);
    assert!(trace.cursor_through(&vec![3]).is_none());
    assert_eq!(trace.cursor_through(&vec![]).unwrap().batches, 2);
}

#[test]
fn advance_frontier_never_goes_back() {
    let (mut shared, reader, _writer) = TraceAgent::new(Spine::new());
    reader.advance_by(&mut shared, &vec![5]);
    assert_eq!(reader.advance_frontier(&shared), vec![5]);
    reader.advance_by(&mut shared, &vec![3]);
    assert_eq!(reader.advance_frontier(&shared), vec![5]);
    reader.advance_by(&mut shared, &vec![9]);
    assert_eq!(reader.advance_frontier(&shared), vec![9]);
    reader.distinguish_since(&mut shared, &vec![4]);
    reader.distinguish_since(&mut shared, &vec![1]);
    assert_eq!(reader.distinguish_frontier(&shared), vec![4]);
}

#[test]
fn trace_frontier_is_the_meet_of_holds() {
    let (mut shared, a, _writer) = TraceAgent::new(Spine::new());
    let b = a.clone(&mut shared);
    a.advance_by(&mut shared, &vec![3]);
    b.advance_by(&mut shared, &vec![7]);
    assert_eq!(shared.trace().advance_frontier(), &vec![3]);
    a.drop(&mut shared);
    assert_eq!(shared.trace().advance_frontier(), &vec![7]);
    b.drop(&mut shared);
    assert_eq!(shared.trace().advance_frontier(), &Vec::<u64>::new());
}

#[test]
fn clone_holds_where_its_source_holds() {
    let (mut shared, a, _writer) = TraceAgent::new(Spine::new());
    a.advance_by(&mut shared, &vec![4]);
    let b = a.clone(&mut shared);
    assert_eq!(b.advance_frontier(&shared), vec![4]);
    a.advance_by(&mut shared, &vec![10]);
    assert_eq!(shared.trace().advance_frontier(), &vec![4]);
}

#[test]
fn listener_replays_history_before_live_batches() {
    let (mut shared, reader, writer) = TraceAgent::new(Spine::new());
    writer.seal(&mut shared, &vec![2], Some((0, batch(0, vec![2], &[(1, 1, 0, 1)]))));
    writer.seal(&mut shared, &vec![4], Some((2, batch(2, vec![4], &[(2, 1, 3, 1)]))));
    let listener = reader.new_listener(&mut shared);
    writer.seal(&mut shared, &vec![6], Some((4, batch(4, vec![6], &[(3, 1, 5, 1)]))));

    let first = listener.next(&mut shared).unwrap();
    assert_eq!(first.frontier, vec![0]);
    let (t, b) = first.data.unwrap();
    assert_eq!(t, 0);
    assert_eq!(b.upper(), &vec![2]);
    let second = listener.next(&mut shared).unwrap();
    assert_eq!(second.data.unwrap().1.upper(), &vec![4]);
    let marker = listener.next(&mut shared).unwrap();
    assert_eq!(marker.frontier, vec![4]);
    assert!(marker.data.is_none());
    let live = listener.next(&mut shared).unwrap();
    assert_eq!(live.frontier, vec![6]);
    let (t, b) = live.data.unwrap();
    assert_eq!(t, 4);
    assert_eq!(b.updates(), &vec![(Entry { key: 3, val: 1, time: 5 }, 1)]);
    assert!(listener.next(&mut shared).is_none());
}

#[test]
fn writer_closes_and_finishes_listeners() {
    let (mut shared, reader, writer) = TraceAgent::new(Spine::new());
    let listener = reader.new_listener(&mut shared);
    writer.seal(&mut shared, &vec![3], None);
    writer.seal(&mut shared, &vec![], None);
    assert_eq!(shared.trace().upper(), Vec::<u64>::new());
    writer.drop(&mut shared);
    let marker = listener.next(&mut shared).unwrap();
    assert_eq!(marker.frontier, vec![0]);
    assert_eq!(listener.next(&mut shared).unwrap().frontier, vec![3]);
    assert_eq!(listener.next(&mut shared).unwrap().frontier, Vec::<u64>::new());
    assert_eq!(listener.next(&mut shared).unwrap().frontier, Vec::<u64>::new());
    let late = reader.new_listener(&mut shared);
    let replayed = late.next(&mut shared).unwrap();
    assert!(replayed.data.is_some());
    assert_eq!(late.next(&mut shared).unwrap().frontier, Vec::<u64>::new());
}

#[test]
fn frozen_view_hides_later_updates() {
    let (mut shared, reader, writer) = TraceAgent::new(Spine::new());
    writer.seal(&mut shared, &vec![9], Some((0, batch(0, vec![9], &[(1, 1, 2, 1), (1, 1, 7, 1), (2, 1, 4, -1)]))));
    let frozen = TraceFreeze::make_from(reader, FreezeAt { limit: 5 });
    let view = frozen.batch(&shared, 0);
    assert_eq!(view.len(), 3);
    assert_eq!(
        view.updates(),
        vec![(Entry { key: 1, val: 1, time: 5 }, 1), (Entry { key: 2, val: 1, time: 5 }, -1)]
    );
}

#[test]
fn entered_view_pairs_times_with_iteration_zero() {
    let (mut shared, reader, writer) = TraceAgent::new(Spine::new());
    writer.seal(&mut shared, &vec![3], Some((0, batch(0, vec![3], &[(1, 2, 1, 4)]))));
    let entered = TraceEnter::make_from(reader);
    let view = entered.batch(&shared, 0);
    assert_eq!(view.upper(), vec![(3, 0)]);
    assert_eq!(view.updates(), vec![(1, 2, (1, 0), 4)]);
    entered.advance_by(&mut shared, &vec![(6, 2), (4, 9)]);
    assert_eq!(entered.advance_frontier(&shared), vec![(4, 0)]);
    assert!(entered.cursor_through(&shared, &vec![(3, 5)]).is_some());
    assert!(entered.cursor_through(&shared, &vec![(2, 0)]).is_none());
}

#[test]
fn exert_merges_only_before_the_distinguish_frontier() {
    let mut trace = Spine::new();
    trace.insert(batch(0, vec![2], &[(1, 1, 1, 1), (2, 1, 0, 1)])).ok().unwrap();
    trace.insert(batch(2, vec![4], &[(1, 1, 3, 1), (2, 1, 3, -1)])).ok().unwrap();
    trace.insert(batch(4, vec![6], &[(3, 1, 5, 1)])).ok().unwrap();
    let mut fuel = 100usize;
    assert_eq!(trace.exert(&mut fuel), None);
    assert_eq!(trace.map_batches().len(), 3);

    trace.distinguish_since(&vec![4]);
    let mut fuel = 1usize;
    assert_eq!(trace.exert(&mut fuel), None);
    assert_eq!(fuel, 0);
    let mut fuel = 100usize;
    assert_eq!(trace.exert(&mut fuel), Some(0));
    assert!(fuel > 0);
    let batches = trace.map_batches();
    assert_eq!(batches.len(), 2);
    assert_eq!(batches[0].lower(), &vec![0]);
    assert_eq!(batches[0].upper(), &vec![4]);
    assert_eq!(
        batches[0].updates(),
        &vec![
            (Entry { key: 1, val: 1, time: 1 }, 1),
            (Entry { key: 1, val: 1, time: 3 }, 1),
            (Entry { key: 2, val: 1, time: 0 }, 1),
            (Entry { key: 2, val: 1, time: 3 }, -1),
        ]
    );
    assert!(trace.cursor_through(&vec![2]).is_none());
    assert_eq!(trace.cursor_through(&vec![4]).unwrap().batches, 1);
    let mut fuel = 100usize;
    assert_eq!(trace.exert(&mut fuel), None);
    assert_eq!(trace.upper(), vec![6]);
}

#[test]
fn insert_refuses_weights_beyond_the_budget() {
    let mut trace = Spine::new();
    assert!(trace.insert(batch(0, vec![2], &[(1, 1, 1, i64::MAX)])).is_ok());
    assert!(trace.insert(batch(2, vec![3], &[(1, 1, 2, -1)])).is_err());
    assert!(trace.insert(batch(2, vec![3], &[])).is_ok());
}

#[test]
fn writer_exerts_the_shared_trace() {
    let (mut shared, reader, writer) = TraceAgent::new(Spine::new());
    writer.seal(&mut shared, &vec![2], Some((0, batch(0, vec![2], &[(1, 1, 1, 1)]))));
    writer.seal(&mut shared, &vec![4], Some((2, batch(2, vec![4], &[(1, 1, 3, -1)]))));
    reader.distinguish_since(&mut shared, &vec![]);
    let mut fuel = 10usize;
    assert_eq!(writer.exert(&mut shared, &mut fuel), Some(0));
    let batches = reader.map_batches(&shared);
    assert_eq!(batches.len(), 1);
    assert_eq!(batches[0].len(), 2);
}

#[test]
fn merging_compacts_times_to_the_advance_frontier() {
    let mut trace = Spine::new();
    trace.insert(batch(0, vec![2], &[(1, 1, 1, 1), (2, 1, 0, 1)])).ok().unwrap();
    trace.insert(batch(2, vec![4], &[(1, 1, 3, 1), (2, 1, 3, -1)])).ok().unwrap();
    trace.advance_by(&vec![3]);
    trace.distinguish_since(&vec![4]);
    let mut fuel = 100usize;
    assert_eq!(trace.exert(&mut fuel), Some(0));
    let batches = trace.map_batches();
    assert_eq!(batches.len(), 1);
    assert_eq!(batches[0].updates(), &vec![(Entry { key: 1, val: 1, time: 3 }, 2)]);
    assert_eq!(batches[0].description().since(), &vec![3]);
}

#[test]
fn entered_cursor_reads_times_at_iteration_zero() {
    let (mut shared, reader, writer) = TraceAgent::new(Spine::new());
    writer.seal(&mut shared, &vec![3], Some((0, batch(0, vec![3], &[(1, 2, 1, 4), (2, 2, 2, -1)]))));
    let entered = TraceEnter::make_from(reader);
    let c = entered.cursor_through(&shared, &vec![(3, 7)]).unwrap();
    assert_eq!(c.batches, 1);
    assert_eq!(entered.cursor_updates(&shared, &c), vec![(1, 2, (1, 0), 4), (2, 2, (2, 0), -1)]);
    assert_eq!(entered.batch(&shared, 0).since(), vec![(0, 0)]);
}
