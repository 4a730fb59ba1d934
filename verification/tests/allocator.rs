use std::collections::VecDeque;

use midiplex::midiplex::Midiplexer;
use midiplex::outputs::LogOutput;
use midiplex::types::{Output, SinkEvent};

fn pool(labels: &[char]) -> Vec<LogOutput> {
    labels.iter().map(|&l| LogOutput::new(l)).collect()
}

fn labels(outputs: &VecDeque<LogOutput>) -> Vec<char> {
    outputs.iter().map(|o| o.label).collect()
}

fn check_entry(
    mp: &Midiplexer<LogOutput>,
    idx: usize,
    key: (u8, u8),
    velocity: u8,
    target: usize,
    expected: &[char],
) {
    assert_eq!(mp.notes[idx].note, key.0);
    assert_eq!(mp.notes[idx].channel, key.1);
    assert_eq!(mp.notes[idx].velocity, velocity);
    assert_eq!(mp.notes[idx].target_allocation, target);
    assert_eq!(labels(&mp.notes[idx].outputs), expected.to_vec());
}

#[test]
fn unbounded_allocation() {
    let mut midiplexer = Midiplexer::new(pool(&['a', 'b', 'c', 'd']), None);

    // 1 note on
    midiplexer.on(0, 0, 127).unwrap();
    assert_eq!(midiplexer.notes.len(), 1);
    check_entry(&midiplexer, 0, (0, 0), 127, 4, &['a', 'b', 'c', 'd']);

    // 2 notes on
    midiplexer.on(0, 1, 127).unwrap();
    assert_eq!(midiplexer.notes.len(), 2);
    check_entry(&midiplexer, 0, (0, 0), 127, 2, &['c', 'd']);
    check_entry(&midiplexer, 1, (0, 1), 127, 2, &['a', 'b']);

    // 3 notes on
    midiplexer.on(0, 2, 127).unwrap();
    assert_eq!(midiplexer.notes.len(), 3);
    check_entry(&midiplexer, 0, (0, 0), 127, 1, &['d']);
    check_entry(&midiplexer, 1, (0, 1), 127, 1, &['b']);
    check_entry(&midiplexer, 2, (0, 2), 127, 1, &['a']);

    // 4 notes on
    midiplexer.on(0, 3, 127).unwrap();
    assert_eq!(midiplexer.notes.len(), 4);
    check_entry(&midiplexer, 0, (0, 0), 127, 1, &['d']);
    check_entry(&midiplexer, 1, (0, 1), 127, 1, &['b']);
    check_entry(&midiplexer, 2, (0, 2), 127, 1, &['a']);
    check_entry(&midiplexer, 3, (0, 3), 127, 1, &['c']);

    // 5 notes on
    midiplexer.on(0, 4, 127).unwrap();
    assert_eq!(midiplexer.notes.len(), 5);
    check_entry(&midiplexer, 0, (0, 0), 127, 0, &[]);
    check_entry(&midiplexer, 1, (0, 1), 127, 1, &['b']);
    check_entry(&midiplexer, 2, (0, 2), 127, 1, &['a']);
    check_entry(&midiplexer, 3, (0, 3), 127, 1, &['c']);
    check_entry(&midiplexer, 4, (0, 4), 127, 1, &['d']);
}

#[test]
fn bounded_allocator() {
    let mut midiplexer = Midiplexer::new(pool(&['a', 'b', 'c', 'd']), Some(2));

    // 1 note on
    midiplexer.on(0, 0, 127).unwrap();
    assert_eq!(midiplexer.notes.len(), 1);
    check_entry(&midiplexer, 0, (0, 0), 127, 2, &['a', 'b']);

    // 2 notes on
    midiplexer.on(0, 1, 127).unwrap();
    assert_eq!(midiplexer.notes.len(), 2);
    check_entry(&midiplexer, 0, (0, 0), 127, 2, &['a', 'b']);
    check_entry(&midiplexer, 1, (0, 1), 127, 2, &['c', 'd']);

    // 3 notes on
    midiplexer.on(0, 2, 127).unwrap();
    assert_eq!(midiplexer.notes.len(), 3);
    check_entry(&midiplexer, 0, (0, 0), 127, 1, &['b']);
    check_entry(&midiplexer, 1, (0, 1), 127, 1, &['d']);
    check_entry(&midiplexer, 2, (0, 2), 127, 1, &['c']);

    // 4 notes on
    midiplexer.on(0, 3, 127).unwrap();
    assert_eq!(midiplexer.notes.len(), 4);
    check_entry(&midiplexer, 0, (0, 0), 127, 1, &['b']);
    check_entry(&midiplexer, 1, (0, 1), 127, 1, &['d']);
    check_entry(&midiplexer, 2, (0, 2), 127, 1, &['c']);
    check_entry(&midiplexer, 3, (0, 3), 127, 1, &['a']);

    // 5 notes on: to accommodate the output shortage, the allocation of
    // the oldest note on the books, (0,0), moves to the newest, (0,4).
    midiplexer.on(0, 4, 127).unwrap();
    assert_eq!(midiplexer.notes.len(), 5);
    check_entry(&midiplexer, 0, (0, 0), 127, 0, &[]);
    check_entry(&midiplexer, 1, (0, 1), 127, 1, &['d']);
    check_entry(&midiplexer, 2, (0, 2), 127, 1, &['c']);
    check_entry(&midiplexer, 3, (0, 3), 127, 1, &['a']);
    check_entry(&midiplexer, 4, (0, 4), 127, 1, &['b']);
}

#[test]
fn note_off_restores_allocation() {
    // Two equal notes split the pool; releasing the newer one hands its
    // endpoints back to the older one without churning the others.
    let mut mp = Midiplexer::new(pool(&['a', 'b', 'c', 'd']), None);
    mp.on(0, 0, 127).unwrap();
    mp.on(0, 1, 127).unwrap();
    check_entry(&mp, 0, (0, 0), 127, 2, &['c', 'd']);
    check_entry(&mp, 1, (0, 1), 127, 2, &['a', 'b']);

    mp.off(0, 1).unwrap();
    assert_eq!(mp.notes.len(), 1);
    check_entry(&mp, 0, (0, 0), 127, 4, &['c', 'd', 'a', 'b']);
    assert_eq!(mp.unallocated.len(), 0);
    // the released note's emptied queue was recycled
    assert_eq!(mp.unused.len(), 1);
    assert!(mp.unused[0].is_empty());

    // Endpoint b saw: on(0,0), off(0,0), on(0,1), off(0,1), on(0,0) —
    // exactly one off and one on from the note-off call, not repeated.
    let b = &mp.notes[0].outputs[3];
    assert_eq!(b.label, 'b');
    assert_eq!(
        b.log,
        vec![
            SinkEvent::On { note: 0, channel: 0, velocity: 127 },
            SinkEvent::Off { note: 0, channel: 0 },
            SinkEvent::On { note: 0, channel: 1, velocity: 127 },
            SinkEvent::Off { note: 0, channel: 1 },
            SinkEvent::On { note: 0, channel: 0, velocity: 127 },
        ]
    );
}

#[test]
fn velocity_change_rebalances() {
    // A quieter lead note gives endpoints up to a louder newcomer.
    let mut mp = Midiplexer::new(pool(&['a', 'b', 'c', 'd']), None);
    mp.on(60, 0, 100).unwrap();
    check_entry(&mp, 0, (60, 0), 100, 4, &['a', 'b', 'c', 'd']);

    mp.on(64, 0, 50).unwrap();
    // total 150: 64 asks floor(50*4/150) = 1, 60 asks floor(100*4/150) = 2.
    check_entry(&mp, 0, (60, 0), 100, 2, &['c', 'd']);
    check_entry(&mp, 1, (64, 0), 50, 1, &['a']);
    assert_eq!(mp.unallocated.len(), 1);

    // Re-sending the same velocity is a no-op: no rebalance, no calls.
    let calls_before: usize = mp.notes.iter().map(|e| e.outputs.iter().map(|o| o.log.len()).sum::<usize>()).sum::<usize>()
        + mp.unallocated.iter().map(|o| o.log.len()).sum::<usize>();
    mp.on(60, 0, 100).unwrap();
    let calls_after: usize = mp.notes.iter().map(|e| e.outputs.iter().map(|o| o.log.len()).sum::<usize>()).sum::<usize>()
        + mp.unallocated.iter().map(|o| o.log.len()).sum::<usize>();
    assert_eq!(calls_before, calls_after);
    check_entry(&mp, 0, (60, 0), 100, 2, &['c', 'd']);

    // Dropping the lead's velocity tips the proportions the other way.
    mp.on(60, 0, 10).unwrap();
    // total 60: 60 asks max(floor(10*4/60), 1) = 1, 64 asks floor(50*4/60) = 3.
    check_entry(&mp, 0, (60, 0), 10, 1, &['d']);
    check_entry(&mp, 1, (64, 0), 50, 3, &['a', 'b', 'c']);
    assert_eq!(mp.unallocated.len(), 0);
}

#[test]
fn recycled_queue_is_reused() {
    // A note-off recycles the emptied queue; the next fresh note takes
    // it back instead of allocating.
    let mut mp = Midiplexer::new(pool(&['a', 'b']), None);
    mp.on(60, 0, 50).unwrap();
    mp.off(60, 0).unwrap();
    assert_eq!(mp.unused.len(), 1);
    mp.on(64, 0, 70).unwrap();
    assert_eq!(mp.unused.len(), 0);
    mp.off(64, 0).unwrap();
    assert_eq!(mp.unused.len(), 1);
}

#[test]
fn off_unknown_key_is_noop() {
    let mut mp = Midiplexer::new(pool(&['a', 'b']), None);
    mp.on(10, 3, 64).unwrap();
    let before: Vec<char> = labels(&mp.notes[0].outputs);
    mp.off(10, 4).unwrap();
    mp.off(11, 3).unwrap();
    assert_eq!(mp.notes.len(), 1);
    assert_eq!(labels(&mp.notes[0].outputs), before);
}
