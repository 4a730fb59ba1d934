//! The ingestion side of the core: decoded events in, endpoint calls out.
//!
//! The embedding program reads events from its sequencer or socket,
//! decodes them into [`MidiEvent`] values, and hands each one to
//! [`forward`]; [`midiplex`] builds the allocator the events are
//! forwarded to. Reading and polling stay outside the core.

use vstd::prelude::*;

use crate::allocation::{idle_wf, init_abs};
use crate::midiplex::{hists, Midiplexer};
use crate::types::{Channel, Note, Output, SinkEvent, Velocity};

verus! {

/// One decoded event from the upstream sequencer.
#[derive(Clone, Copy, PartialEq, Eq, Structural, Debug)]
pub enum MidiEvent {
    /// A key went down — or, with velocity zero, up, by MIDI convention.
    NoteOn { note: Note, channel: Channel, velocity: Velocity },
    /// A key went up.
    NoteOff { note: Note, channel: Channel },
    /// Anything else; the core ignores it.
    Other,
}

/// A decoded event carries only 7-bit note and velocity numbers and a
/// 4-bit channel number.
pub open spec fn event_wf(e: MidiEvent) -> bool {
    match e {
        MidiEvent::NoteOn { note, channel, velocity } => note <= 127 && channel <= 15 && velocity
            <= 127,
        MidiEvent::NoteOff { note, channel } => note <= 127 && channel <= 15,
        MidiEvent::Other => true,
    }
}

/// Forward one decoded event to `output`, normalizing a zero-velocity
/// note-on to a note-off. An endpoint error is deliberately dropped: a
/// live event stream is better served by pressing on than by stopping.
pub fn forward<O: Output>(event: &MidiEvent, output: &mut O)
    requires
        old(output).inv(),
        event_wf(*event),
    ensures
        final(output).inv(),
        (match *event {
            MidiEvent::NoteOn { note, channel, velocity } => final(output).history() == (
            if velocity > 0 {
                old(output).history().push(SinkEvent::On { note, channel, velocity })
            } else {
                old(output).history().push(SinkEvent::Off { note, channel })
            }),
            MidiEvent::NoteOff { note, channel } => final(output).history() == old(
                output,
            ).history().push(SinkEvent::Off { note, channel }),
            MidiEvent::Other => final(output).history() == old(output).history(),
        }),
{
    match *event {
        MidiEvent::NoteOn { note, channel, velocity } => {
            if velocity > 0 {
                let _ = output.on(note, channel, velocity);
            } else {
                let _ = output.off(note, channel);
            }
        },
        MidiEvent::NoteOff { note, channel } => {
            let _ = output.off(note, channel);
        },
        MidiEvent::Other => {},
    }
}

/// Build the allocator that distributes one input stream across
/// `outputs`. The embedding program then polls its input and calls
/// [`forward`] on the result for every decoded event; the polling loop
/// itself does I/O and so stays outside the core.
pub fn midiplex<O: Output>(outputs: Vec<O>, max_allocation: Option<usize>) -> (r: Midiplexer<O>)
    requires
        forall|i: int|
            0 <= i < outputs@.len() ==> (#[trigger] outputs@[i]).inv() && idle_wf(
                outputs@[i].history(),
            ),
        (match max_allocation {
            Some(m) => m >= 1,
            None => true,
        }),
    ensures
        r.well_formed(),
        r.abs() == init_abs(hists(outputs@), max_allocation),
        r.history() == Seq::<SinkEvent>::empty(),
{
    Midiplexer::new(outputs, max_allocation)
}

} // verus!
