use midiplex::midiplex::Midiplexer;
use midiplex::outputs::LogOutput;
use midiplex::types::{Output, SinkEvent};

fn pool(labels: &[char]) -> Vec<LogOutput> {
    labels.iter().map(|&l| LogOutput::new(l)).collect()
}

fn owned_endpoints(mp: &Midiplexer<LogOutput>) -> usize {
    mp.notes.iter().map(|e| e.outputs.len()).sum::<usize>() + mp.unallocated.len()
}

fn velocity_sum(mp: &Midiplexer<LogOutput>) -> usize {
    mp.notes.iter().map(|e| e.velocity as usize).sum()
}

fn target_sum(mp: &Midiplexer<LogOutput>) -> usize {
    mp.notes.iter().map(|e| e.target_allocation).sum()
}

fn total_calls(mp: &Midiplexer<LogOutput>) -> usize {
    mp.notes
        .iter()
        .map(|e| e.outputs.iter().map(|o| o.log.len()).sum::<usize>())
        .sum::<usize>()
        + mp.unallocated.iter().map(|o| o.log.len()).sum::<usize>()
}

/// Every endpoint's log alternates on/off, starting with on, each off
/// stopping exactly the note last started.
fn check_alternation(log: &[SinkEvent]) {
    let mut active: Option<(u8, u8)> = None;
    for ev in log {
        match *ev {
            SinkEvent::On { note, channel, .. } => {
                assert!(active.is_none(), "double-on");
                active = Some((note, channel));
            }
            SinkEvent::Off { note, channel } => {
                assert_eq!(active, Some((note, channel)), "orphan off");
                active = None;
            }
            SinkEvent::Silence => {
                active = None;
            }
        }
    }
}

fn check_invariants(mp: &Midiplexer<LogOutput>, num_outputs: usize) {
    // endpoint conservation
    assert_eq!(owned_endpoints(mp), num_outputs);
    // velocity accounting
    assert_eq!(mp.total_velocity, velocity_sum(mp));
    // allocation sum within the pool
    assert!(target_sum(mp) <= num_outputs);
    // alternation on every endpoint
    for e in mp.notes.iter() {
        for o in e.outputs.iter() {
            check_alternation(&o.log);
        }
    }
    for o in mp.unallocated.iter() {
        check_alternation(&o.log);
    }
}

#[test]
fn invariants_hold_along_a_session() {
    let mut mp = Midiplexer::new(pool(&['a', 'b', 'c', 'd']), None);
    let script: &[(u8, u8, u8)] = &[
        (60, 0, 100),
        (64, 0, 50),
        (67, 0, 127),
        (60, 0, 1),
        (72, 1, 80),
        (64, 0, 0),
        (48, 2, 33),
        (67, 0, 0),
        (49, 2, 97),
        (50, 2, 5),
    ];
    check_invariants(&mp, 4);
    for &(n, c, v) in script {
        if v > 0 {
            let _ = mp.on(n, c, v);
        } else {
            let _ = mp.off(n, c);
        }
        check_invariants(&mp, 4);
    }
    let _ = mp.silence();
    check_invariants(&mp, 4);
}

#[test]
fn invariants_hold_with_a_cap() {
    let mut mp = Midiplexer::new(pool(&['a', 'b', 'c', 'd', 'e', 'f']), Some(2));
    let script: &[(u8, u8, u8)] = &[
        (60, 0, 120),
        (61, 0, 3),
        (62, 0, 77),
        (61, 0, 0),
        (63, 1, 15),
        (64, 1, 99),
        (62, 0, 14),
    ];
    for &(n, c, v) in script {
        if v > 0 {
            let _ = mp.on(n, c, v);
        } else {
            let _ = mp.off(n, c);
        }
        check_invariants(&mp, 6);
    }
}

#[test]
fn silence_is_idempotent() {
    let mut mp = Midiplexer::new(pool(&['a', 'b', 'c']), None);
    assert_eq!(mp.unused.len(), 0);
    mp.on(60, 0, 90).unwrap();
    mp.on(62, 0, 45).unwrap();
    mp.silence().unwrap();
    assert_eq!(mp.notes.len(), 0);
    assert_eq!(mp.unallocated.len(), 3);
    assert_eq!(mp.total_velocity, 0);
    // both drained queues were recycled, and both are empty
    assert_eq!(mp.unused.len(), 2);
    assert!(mp.unused.iter().all(|q| q.is_empty()));
    for o in mp.unallocated.iter() {
        check_alternation(&o.log);
    }
    // The second silence makes no endpoint calls at all.
    let calls = total_calls(&mp);
    mp.silence().unwrap();
    assert_eq!(total_calls(&mp), calls);
    assert_eq!(mp.notes.len(), 0);
}

#[test]
fn reentry_matches_single_start() {
    // on; off; on at one velocity lands in the same shape as a single
    // on — same table, same targets, same counts — though possibly with
    // different endpoints serving the notes.
    let mut twice = Midiplexer::new(pool(&['a', 'b', 'c', 'd']), None);
    twice.on(60, 0, 80).unwrap();
    twice.on(64, 0, 120).unwrap();
    twice.off(64, 0).unwrap();
    twice.on(64, 0, 120).unwrap();

    let mut once = Midiplexer::new(pool(&['a', 'b', 'c', 'd']), None);
    once.on(60, 0, 80).unwrap();
    once.on(64, 0, 120).unwrap();

    assert_eq!(twice.notes.len(), once.notes.len());
    for (x, y) in twice.notes.iter().zip(once.notes.iter()) {
        assert_eq!((x.note, x.channel, x.velocity), (y.note, y.channel, y.velocity));
        assert_eq!(x.target_allocation, y.target_allocation);
        assert_eq!(x.outputs.len(), y.outputs.len());
    }
    assert_eq!(twice.unallocated.len(), once.unallocated.len());
    assert_eq!(twice.total_velocity, once.total_velocity);
}

#[test]
fn audibility_while_pool_suffices() {
    // Three notes over four endpoints: every note keeps at least one.
    let mut mp = Midiplexer::new(pool(&['a', 'b', 'c', 'd']), None);
    mp.on(60, 0, 120).unwrap();
    mp.on(64, 0, 7).unwrap();
    mp.on(67, 0, 55).unwrap();
    assert_eq!(mp.notes.len(), 3);
    for e in mp.notes.iter() {
        assert!(e.target_allocation >= 1);
        assert!(e.outputs.len() >= 1);
    }
}

#[test]
fn zero_endpoints_still_account() {
    // An allocator over no endpoints keeps its books; nothing sounds.
    let mut mp = Midiplexer::new(pool(&[]), None);
    assert!(mp.on(60, 0, 100).is_ok());
    assert_eq!(mp.notes.len(), 1);
    assert_eq!(mp.notes[0].target_allocation, 0);
    assert_eq!(mp.notes[0].outputs.len(), 0);
    check_invariants(&mp, 0);
    assert!(mp.off(60, 0).is_ok());
    assert_eq!(mp.notes.len(), 0);
    check_invariants(&mp, 0);
}

#[test]
fn full_keyboard_sweep() {
    // Press every key on two channels, then silence; the books balance
    // at every step.
    let mut mp = Midiplexer::new(pool(&['a', 'b', 'c', 'd']), None);
    for channel in 0..2u8 {
        for note in 0..128u8 {
            let _ = mp.on(note, channel, note % 127 + 1);
        }
    }
    assert_eq!(mp.notes.len(), 256);
    check_invariants(&mp, 4);
    for note in 0..64u8 {
        let _ = mp.off(note, 0);
    }
    assert_eq!(mp.notes.len(), 192);
    check_invariants(&mp, 4);
    mp.silence().unwrap();
    assert_eq!(mp.notes.len(), 0);
    assert_eq!(mp.unallocated.len(), 4);
    check_invariants(&mp, 4);
}

#[test]
fn oldest_note_is_sacrificed_under_scarcity() {
    // Two endpoints, three notes: the oldest goes silent, the newer two
    // each keep one endpoint.
    let mut mp = Midiplexer::new(pool(&['a', 'b']), None);
    mp.on(60, 0, 64).unwrap();
    mp.on(64, 0, 64).unwrap();
    mp.on(67, 0, 64).unwrap();
    assert_eq!(mp.notes[0].target_allocation, 0);
    assert_eq!(mp.notes[0].outputs.len(), 0);
    assert_eq!(mp.notes[1].outputs.len(), 1);
    assert_eq!(mp.notes[2].outputs.len(), 1);
}
