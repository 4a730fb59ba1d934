use midiplex::driver::{forward, midiplex, MidiEvent};
use midiplex::midiplex::Midiplexer;
use midiplex::outputs::LogOutput;
use midiplex::types::{Output, SinkEvent};

fn pool(labels: &[char]) -> Vec<LogOutput> {
    labels.iter().map(|&l| LogOutput::new(l)).collect()
}

#[test]
fn midiplex_builds_an_idle_allocator() {
    let mp: Midiplexer<LogOutput> = midiplex(pool(&['a', 'b', 'c']), Some(2));
    assert_eq!(mp.num_outputs, 3);
    assert_eq!(mp.notes.len(), 0);
    assert_eq!(mp.unallocated.len(), 3);
    assert_eq!(mp.total_velocity, 0);
    assert_eq!(mp.max_allocation, Some(2));
    let got: Vec<char> = mp.unallocated.iter().map(|o| o.label).collect();
    assert_eq!(got, vec!['a', 'b', 'c']);
}

#[test]
fn forward_dispatches_events() {
    let mut mp = Midiplexer::new(pool(&['a', 'b']), None);

    forward(&MidiEvent::NoteOn { note: 60, channel: 0, velocity: 90 }, &mut mp);
    assert_eq!(mp.notes.len(), 1);
    assert_eq!(mp.notes[0].velocity, 90);

    // ignored event: nothing changes
    forward(&MidiEvent::Other, &mut mp);
    assert_eq!(mp.notes.len(), 1);

    forward(&MidiEvent::NoteOff { note: 60, channel: 0 }, &mut mp);
    assert_eq!(mp.notes.len(), 0);
    assert_eq!(mp.unallocated.len(), 2);
}

#[test]
fn forward_normalizes_zero_velocity() {
    // A zero-velocity note-on is a note-off by MIDI convention.
    let mut mp = Midiplexer::new(pool(&['a', 'b']), None);
    forward(&MidiEvent::NoteOn { note: 60, channel: 0, velocity: 90 }, &mut mp);
    forward(&MidiEvent::NoteOn { note: 60, channel: 0, velocity: 0 }, &mut mp);
    assert_eq!(mp.notes.len(), 0);
    assert_eq!(mp.unallocated.len(), 2);
}

/// An endpoint that records commands but reports every one as failed:
/// the allocator must return the first error yet keep its books as if
/// the call had succeeded.
struct FailingOutput {
    log: Vec<SinkEvent>,
}

impl Output for FailingOutput {
    type Error = &'static str;

    // The two specification-level items are never evaluated at run time;
    // an implementation outside the verified world only has to name them.
    fn history(&self) -> midiplex::types::History {
        panic!()
    }

    fn inv(&self) -> bool {
        true
    }

    fn on(&mut self, note: u8, channel: u8, velocity: u8) -> Result<(), &'static str> {
        self.log.push(SinkEvent::On { note, channel, velocity });
        Err("refused on")
    }

    fn off(&mut self, note: u8, channel: u8) -> Result<(), &'static str> {
        self.log.push(SinkEvent::Off { note, channel });
        Err("refused off")
    }
}

#[test]
fn default_silence_sweeps_until_first_error() {
    // The trait's provided silence stops every key one off at a time and
    // cuts the sweep short at the first error.
    let mut fo = FailingOutput { log: Vec::new() };
    assert_eq!(fo.silence(), Err("refused off"));
    assert_eq!(fo.log, vec![SinkEvent::Off { note: 0, channel: 0 }]);
}

#[test]
fn endpoint_errors_do_not_disturb_bookkeeping() {
    let sinks = vec![FailingOutput { log: Vec::new() }, FailingOutput { log: Vec::new() }];
    let mut mp = Midiplexer::new(sinks, None);

    let r = mp.on(60, 0, 100);
    assert_eq!(r, Err("refused on"));
    // The books proceed as if the calls had succeeded.
    assert_eq!(mp.notes.len(), 1);
    assert_eq!(mp.notes[0].target_allocation, 2);
    assert_eq!(mp.notes[0].outputs.len(), 2);
    assert_eq!(mp.unallocated.len(), 0);

    let r = mp.off(60, 0);
    assert_eq!(r, Err("refused off"));
    assert_eq!(mp.notes.len(), 0);
    assert_eq!(mp.unallocated.len(), 2);
    assert_eq!(mp.total_velocity, 0);

    // Every planned command was still delivered, in order.
    for o in mp.unallocated.iter() {
        assert_eq!(
            o.log,
            vec![
                SinkEvent::On { note: 60, channel: 0, velocity: 100 },
                SinkEvent::Off { note: 60, channel: 0 },
            ]
        );
    }
}
