//! A deterministic in-memory output endpoint.
//!
//! [`LogOutput`] plays nothing: it records every command it receives, in
//! order, and never fails. It is the endpoint the test suite drives the
//! allocator against; its recorded log is exactly its specification-level
//! history.

use vstd::prelude::*;

use crate::types::{Channel, Note, Output, SinkEvent, Velocity};

verus! {

/// An endpoint that records the commands it receives.
pub struct LogOutput {
    /// A caller-chosen tag, so a test can tell endpoints apart.
    pub label: char,
    /// Every command received so far, oldest first.
    pub log: Vec<SinkEvent>,
}

impl LogOutput {
    /// A fresh endpoint with an empty log.
    pub fn new(label: char) -> (r: LogOutput)
        ensures
            r.label == label,
            r.history() == Seq::<SinkEvent>::empty(),
            r.inv(),
    {
        LogOutput { label, log: Vec::new() }
    }
}

impl Output for LogOutput {
    type Error = ();

    open spec fn history(&self) -> Seq<SinkEvent> {
        self.log@
    }

    open spec fn inv(&self) -> bool {
        true
    }

    fn on(&mut self, note: Note, channel: Channel, velocity: Velocity) -> (r: Result<(), ()>)
        ensures
            r is Ok,
            final(self).label == old(self).label,
    {
        self.log.push(SinkEvent::On { note, channel, velocity });
        Ok(())
    }

    fn off(&mut self, note: Note, channel: Channel) -> (r: Result<(), ()>)
        ensures
            r is Ok,
            final(self).label == old(self).label,
    {
        self.log.push(SinkEvent::Off { note, channel });
        Ok(())
    }

    fn silence(&mut self) -> (r: Result<(), ()>)
        ensures
            r is Ok,
            final(self).label == old(self).label,
            final(self).history() == old(self).history().push(SinkEvent::Silence),
    {
        self.log.push(SinkEvent::Silence);
        Ok(())
    }
}

} // verus!
