//! The note vocabulary and the output (sink) capability.
//!
//! An output endpoint receives a stream of note-on / note-off commands.
//! Its specification-level state is the sequence of events it has received
//! so far (its *history*); a well-behaved history alternates `on` and `off`
//! per endpoint, so an endpoint is never told to start a note twice nor to
//! stop a note it is not playing.

use vstd::prelude::*;

verus! {

/// A MIDI note number, in `[0, 127]`.
pub type Note = u8;

/// A MIDI channel number, in `[0, 15]`.
pub type Channel = u8;

/// A note velocity; a stored velocity is always in `[1, 127]`.
pub type Velocity = u8;

/// The sequence of commands an endpoint has received, oldest first. An
/// endpoint implementation outside the verified world names this type
/// when it declares its (never-evaluated) history.
pub type History = Seq<SinkEvent>;

/// One command delivered to an output endpoint.
#[derive(Clone, Copy, PartialEq, Eq, Structural, Debug)]
pub enum SinkEvent {
    /// Begin sounding `(note, channel)` at `velocity`.
    On { note: Note, channel: Channel, velocity: Velocity },
    /// Stop sounding `(note, channel)`.
    Off { note: Note, channel: Channel },
    /// Stop everything that is sounding.
    Silence,
}

/// The note an endpoint with history `h` currently believes is sounding,
/// if any. Because valid histories alternate, this is decided by the last
/// event alone.
pub open spec fn hist_active(h: Seq<SinkEvent>) -> Option<(Note, Channel)> {
    if h.len() == 0 {
        None
    } else {
        match h.last() {
            SinkEvent::On { note, channel, .. } => Some((note, channel)),
            SinkEvent::Off { .. } => None,
            SinkEvent::Silence => None,
        }
    }
}

/// A history is well formed when its `on`/`off` events alternate starting
/// with `on`: a note is only started while nothing is sounding, and only
/// the note that is sounding is ever stopped.
pub open spec fn hist_ok(h: Seq<SinkEvent>) -> bool
    decreases h.len(),
{
    if h.len() == 0 {
        true
    } else {
        hist_ok(h.drop_last()) && (match h.last() {
            SinkEvent::On { .. } => hist_active(h.drop_last()) is None,
            SinkEvent::Off { note, channel } => hist_active(h.drop_last()) == Some((note, channel)),
            SinkEvent::Silence => true,
        })
    }
}

/// Stopping the note an endpoint is sounding leaves a valid, idle
/// history.
pub proof fn lemma_hist_push_off(h: Seq<SinkEvent>, note: Note, channel: Channel)
    requires
        hist_ok(h),
        hist_active(h) == Some((note, channel)),
    ensures
        hist_ok(h.push(SinkEvent::Off { note, channel })),
        hist_active(h.push(SinkEvent::Off { note, channel })) is None,
{
    assert(h.push(SinkEvent::Off { note, channel }).drop_last() =~= h);
}

/// The outcome of every endpoint command in `rs` in issue order, reduced
/// to the first failure: `None` when every command succeeded, otherwise
/// the error of the earliest command that failed.
pub open spec fn first_error<E>(rs: Seq<Option<E>>) -> Option<E>
    decreases rs.len(),
{
    if rs.len() == 0 {
        None
    } else {
        match rs[0] {
            Some(e) => Some(e),
            None => first_error(rs.skip(1)),
        }
    }
}

/// One more outcome at the end changes the first failure only when none
/// came before it.
pub proof fn lemma_first_error_push<E>(rs: Seq<Option<E>>, x: Option<E>)
    ensures
        first_error(rs.push(x)) == (match first_error(rs) {
            Some(e) => Some(e),
            None => x,
        }),
    decreases rs.len(),
{
    if rs.len() == 0 {
        assert(rs.push(x)[0] == x);
        assert(rs.push(x).skip(1) =~= Seq::<Option<E>>::empty());
        assert(first_error(Seq::<Option<E>>::empty()) == None::<E>);
    } else {
        assert(rs.push(x)[0] == rs[0]);
        assert(rs.push(x).skip(1) =~= rs.skip(1).push(x));
        lemma_first_error_push(rs.skip(1), x);
    }
}

/// The first failure of two runs of outcomes in sequence.
pub proof fn lemma_first_error_concat<E>(a: Seq<Option<E>>, b: Seq<Option<E>>)
    ensures
        first_error(a + b) == (match first_error(a) {
            Some(e) => Some(e),
            None => first_error(b),
        }),
    decreases a.len(),
{
    if a.len() == 0 {
        assert(a + b =~= b);
    } else {
        assert((a + b)[0] == a[0]);
        assert((a + b).skip(1) =~= a.skip(1) + b);
        lemma_first_error_concat(a.skip(1), b);
    }
}

/// Starting a note on an idle endpoint leaves a valid history that
/// sounds exactly that note.
pub proof fn lemma_hist_push_on(h: Seq<SinkEvent>, note: Note, channel: Channel, velocity: Velocity)
    requires
        hist_ok(h),
        hist_active(h) is None,
    ensures
        hist_ok(h.push(SinkEvent::On { note, channel, velocity })),
        hist_active(h.push(SinkEvent::On { note, channel, velocity })) == Some((note, channel)),
{
    assert(h.push(SinkEvent::On { note, channel, velocity }).drop_last() =~= h);
}

/// The commands the provided `silence` body issues: one `off` for every
/// key, channel-major — all 128 notes of channel 0, then of channel 1,
/// and so on.
pub open spec fn silence_sweep() -> Seq<SinkEvent> {
    Seq::new(
        2048,
        |k: int| SinkEvent::Off { note: (k % 128) as Note, channel: (k / 128) as Channel },
    )
}

/// The capability every output endpoint offers: it can start a note, stop
/// a note, and stop everything. Concrete endpoints (network peers, local
/// synthesizer ports) implement this trait outside the core; the
/// [`crate::midiplex::Midiplexer`] both consumes it and implements it.
pub trait Output: Sized {
    /// The transport error an endpoint may report. Errors do not undo the
    /// event: an endpoint is accounted as having applied every command it
    /// was sent, even one it reported a failure for.
    type Error;

    /// The sequence of commands this endpoint has received so far.
    spec fn history(&self) -> Seq<SinkEvent>;

    /// The endpoint's own validity condition, preserved by every command.
    spec fn inv(&self) -> bool;

    /// Begin sounding `(note, channel)` at `velocity`.
    fn on(&mut self, note: Note, channel: Channel, velocity: Velocity) -> (r: Result<
        (),
        Self::Error,
    >)
        requires
            old(self).inv(),
            note <= 127,
            channel <= 15,
            1 <= velocity <= 127,
        ensures
            final(self).inv(),
            final(self).history() == old(self).history().push(
                SinkEvent::On { note, channel, velocity },
            ),
    ;

    /// Stop sounding `(note, channel)`. Stopping a note the endpoint does
    /// not play must be harmless.
    fn off(&mut self, note: Note, channel: Channel) -> (r: Result<(), Self::Error>)
        requires
            old(self).inv(),
            note <= 127,
            channel <= 15,
        ensures
            final(self).inv(),
            final(self).history() == old(self).history().push(SinkEvent::Off { note, channel }),
    ;

    /// Stop every note the endpoint may be playing; afterwards the
    /// endpoint sounds nothing. The provided body stops every note on
    /// every channel, one `off` at a time in channel-major order,
    /// cutting the sweep short at the first error.
    fn silence(&mut self) -> (r: Result<(), Self::Error>)
        requires
            old(self).inv(),
        ensures
            final(self).inv(),
            hist_active(final(self).history()) is None,
        default_ensures
            (exists|j: int|
                0 <= j <= 2048 && final(self).history() == old(self).history()
                    + silence_sweep().take(j)),
            r is Ok ==> final(self).history() == old(self).history() + silence_sweep(),
    {
        let ghost h0 = self.history();
        let mut channel: u8 = 0;
        while channel < 16
            invariant
                self.inv(),
                channel <= 16,
                h0 == old(self).history(),
                self.history() == h0 + silence_sweep().take(128 * channel as int),
                channel > 0 ==> hist_active(self.history()) is None,
            decreases 16 - channel,
        {
            let mut note: u8 = 0;
            while note < 128
                invariant
                    self.inv(),
                    note <= 128,
                    channel <= 15,
                    h0 == old(self).history(),
                    self.history() == h0 + silence_sweep().take(
                        128 * channel as int + note as int,
                    ),
                    128 * channel as int + note as int > 0 ==> hist_active(self.history()) is None,
                decreases 128 - note,
            {
                let res = self.off(note, channel);
                proof {
                    let cnt = 128 * channel as int + note as int;
                    vstd::arithmetic::div_mod::lemma_fundamental_div_mod_converse(
                        cnt,
                        128,
                        channel as int,
                        note as int,
                    );
                    assert(silence_sweep()[cnt] == SinkEvent::Off { note, channel });
                    assert(silence_sweep().take(cnt + 1) =~= silence_sweep().take(cnt).push(
                        silence_sweep()[cnt],
                    ));
                    assert(self.history() =~= h0 + silence_sweep().take(cnt + 1));
                }
                if let Err(e) = res {
                    proof {
                        let cnt = 128 * channel as int + note as int;
                        assert(exists|j: int|
                            0 <= j <= 2048 && self.history() == old(self).history()
                                + silence_sweep().take(j)) by {
                            assert(self.history() == old(self).history() + silence_sweep().take(
                                cnt + 1,
                            ));
                        }
                    }
                    return Err(e);
                }
                note = note + 1;
            }
            channel = channel + 1;
        }
        proof {
            assert(silence_sweep().take(2048) =~= silence_sweep());
            assert(exists|j: int|
                0 <= j <= 2048 && self.history() == old(self).history() + silence_sweep().take(
                    j,
                )) by {
                assert(self.history() == old(self).history() + silence_sweep().take(2048));
            }
        }
        Ok(())
    }
}

} // verus!
