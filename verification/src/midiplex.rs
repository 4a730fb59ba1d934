//! The velocity-proportional allocator.
//!
//! A [`Midiplexer`] owns a fixed pool of output endpoints and distributes
//! them across the currently sounding notes in proportion to velocity,
//! newest notes first, so that the oldest notes are sacrificed first under
//! scarcity. Every public operation is specified against the ghost model
//! in [`crate::allocation`], and keeps the bookkeeping invariant: no
//! endpoint is ever lost or duplicated, and every endpoint's command
//! stream alternates `on`/`off` correctly.

use std::collections::VecDeque;

use vstd::prelude::*;

use crate::allocation::{
    adjust_abs, assign_targets, balanced, cap_binds, clamp_share, drained, entry_wf, freed_from,
    freed_of, grow_entry, grow_need, grow_notes, grow_take, has_key, ideal_share, idle_wf,
    init_abs, key_index, keys_unique, lemma_adjust_abs, lemma_drained_props, lemma_key_index,
    lemma_sum_bounds, lemma_sum_element_le, lemma_sum_skip_step, lemma_sum_update,
    lemma_pool_from_is_suffix, lemma_table_size, lemma_targets_rec_len,
    lemma_targets_rec_pointwise, adjust_call_count,
    off_abs, off_call_count, offs_to, on_abs, on_call_count, ons_to, pool_from, shrink_count,
    shrink_notes, silence_abs, silence_call_count, sum_of, targets, vels, MpAbs, NoteAbs,
};
use crate::types::{
    first_error, lemma_first_error_concat, lemma_first_error_push, lemma_hist_push_off, Channel,
    Note, Output, SinkEvent, Velocity,
};

verus! {

/// One sounding note: its key, current velocity, the endpoint count the
/// last rebalance aimed at, and the endpoints currently assigned to it,
/// oldest assignment at the front.
pub struct NoteEntry<O: Output> {
    pub note: Note,
    pub channel: Channel,
    pub velocity: Velocity,
    pub target_allocation: usize,
    pub outputs: VecDeque<O>,
}

/// The histories of a row of endpoints.
pub open spec fn hists<O: Output>(s: Seq<O>) -> Seq<Seq<SinkEvent>> {
    Seq::new(s.len(), |i: int| s[i].history())
}

proof fn lemma_mul_bound_u128(a: u128, b: u128, ab: u128, bb: u128)
    requires
        a <= ab,
        b <= bb,
    ensures
        a * b <= ab * bb,
{
    assert(a * b <= ab * bb) by (nonlinear_arith)
        requires
            a <= ab,
            b <= bb,
    ;
}

impl<O: Output> NoteEntry<O> {
    /// The ghost image of this entry.
    pub open spec fn abs(self) -> NoteAbs {
        NoteAbs {
            note: self.note,
            channel: self.channel,
            velocity: self.velocity,
            target: self.target_allocation as int,
            outputs: hists(self.outputs@),
        }
    }
}

/// The ghost images of the whole note table.
pub open spec fn entries_abs<O: Output>(s: Seq<NoteEntry<O>>) -> Seq<NoteAbs> {
    Seq::new(s.len(), |i: int| s[i].abs())
}


/// One step of draining a note: the front endpoint is popped, told to
/// stop the note, and appended to the idle queue — which shifts the
/// modelled histories by exactly one position.
proof fn lemma_drain_step<O: Output>(
    pre_outs: Seq<O>,
    outs_now: Seq<O>,
    pre_un: Seq<O>,
    un_now: Seq<O>,
    o: O,
    h0: Seq<Seq<SinkEvent>>,
    u0: Seq<Seq<SinkEvent>>,
    k: int,
    note: Note,
    channel: Channel,
)
    requires
        0 <= k < h0.len(),
        hists(pre_outs) == h0.skip(k),
        outs_now == pre_outs.subrange(1, pre_outs.len() as int),
        hists(pre_un) == u0 + offs_to(h0.take(k), note, channel),
        un_now == pre_un.push(o),
        o.history() == h0[k].push(SinkEvent::Off { note, channel }),
    ensures
        hists(outs_now) == h0.skip(k + 1),
        hists(un_now) == u0 + offs_to(h0.take(k + 1), note, channel),
{
    assert(pre_outs.len() == hists(pre_outs).len());
    assert forall|j: int| 0 <= j < outs_now.len() implies #[trigger] hists(outs_now)[j] == h0.skip(
        k + 1,
    )[j] by {
        assert(outs_now[j] == pre_outs[j + 1]);
        assert(hists(pre_outs)[j + 1] == pre_outs[j + 1].history());
        assert(hists(pre_outs)[j + 1] == h0.skip(k)[j + 1]);
        assert(h0.skip(k)[j + 1] == h0[k + 1 + j]);
        assert(h0.skip(k + 1)[j] == h0[k + 1 + j]);
    }
    assert(hists(outs_now) =~= h0.skip(k + 1));
    let prev_un = u0 + offs_to(h0.take(k), note, channel);
    let target_un = u0 + offs_to(h0.take(k + 1), note, channel);
    assert(offs_to(h0.take(k), note, channel).len() == k);
    assert(offs_to(h0.take(k + 1), note, channel).len() == k + 1);
    assert(pre_un.len() == hists(pre_un).len());
    assert(pre_un.len() == u0.len() + k);
    assert forall|j: int| 0 <= j < hists(un_now).len() implies #[trigger] hists(un_now)[j]
        == target_un[j] by {
        assert(hists(un_now)[j] == un_now[j].history());
        if j < u0.len() {
            assert(un_now[j] == pre_un[j]);
            assert(hists(pre_un)[j] == pre_un[j].history());
            assert(prev_un[j] == u0[j]);
            assert(target_un[j] == u0[j]);
        } else if j < pre_un.len() {
            let jj = j - u0.len();
            assert(0 <= jj < k);
            assert(un_now[j] == pre_un[j]);
            assert(hists(pre_un)[j] == pre_un[j].history());
            assert(prev_un[j] == offs_to(h0.take(k), note, channel)[jj]);
            assert(offs_to(h0.take(k), note, channel)[jj] == h0.take(k)[jj].push(
                SinkEvent::Off { note, channel },
            ));
            assert(h0.take(k)[jj] == h0[jj]);
            assert(h0.take(k + 1)[jj] == h0[jj]);
            assert(target_un[j] == offs_to(h0.take(k + 1), note, channel)[jj]);
            assert(offs_to(h0.take(k + 1), note, channel)[jj] == h0.take(k + 1)[jj].push(
                SinkEvent::Off { note, channel },
            ));
        } else {
            assert(j == pre_un.len());
            assert(un_now[j] == o);
            assert(target_un[j] == offs_to(h0.take(k + 1), note, channel)[k]);
            assert(offs_to(h0.take(k + 1), note, channel)[k] == h0.take(k + 1)[k].push(
                SinkEvent::Off { note, channel },
            ));
            assert(h0.take(k + 1)[k] == h0[k]);
        }
    }
    assert(hists(un_now) =~= target_un);
}

/// One step of growing a note: the front idle endpoint is popped, told
/// to start the note, and appended to the note's queue — the mirror
/// image of [`lemma_drain_step`].
proof fn lemma_grow_step<O: Output>(
    pre_un: Seq<O>,
    un_now: Seq<O>,
    pre_outs: Seq<O>,
    outs_now: Seq<O>,
    o: O,
    h0: Seq<Seq<SinkEvent>>,
    u0: Seq<Seq<SinkEvent>>,
    k: int,
    note: Note,
    channel: Channel,
    velocity: Velocity,
)
    requires
        0 <= k < u0.len(),
        hists(pre_un) == u0.skip(k),
        un_now == pre_un.subrange(1, pre_un.len() as int),
        hists(pre_outs) == h0 + ons_to(u0.take(k), note, channel, velocity),
        outs_now == pre_outs.push(o),
        o.history() == u0[k].push(SinkEvent::On { note, channel, velocity }),
    ensures
        hists(un_now) == u0.skip(k + 1),
        hists(outs_now) == h0 + ons_to(u0.take(k + 1), note, channel, velocity),
{
    assert(pre_un.len() == hists(pre_un).len());
    assert forall|j: int| 0 <= j < un_now.len() implies #[trigger] hists(un_now)[j] == u0.skip(
        k + 1,
    )[j] by {
        assert(un_now[j] == pre_un[j + 1]);
        assert(hists(pre_un)[j + 1] == pre_un[j + 1].history());
        assert(hists(pre_un)[j + 1] == u0.skip(k)[j + 1]);
        assert(u0.skip(k)[j + 1] == u0[k + 1 + j]);
        assert(u0.skip(k + 1)[j] == u0[k + 1 + j]);
    }
    assert(hists(un_now) =~= u0.skip(k + 1));
    let prev_outs = h0 + ons_to(u0.take(k), note, channel, velocity);
    let target_outs = h0 + ons_to(u0.take(k + 1), note, channel, velocity);
    assert(ons_to(u0.take(k), note, channel, velocity).len() == k);
    assert(ons_to(u0.take(k + 1), note, channel, velocity).len() == k + 1);
    assert(pre_outs.len() == hists(pre_outs).len());
    assert(pre_outs.len() == h0.len() + k);
    assert forall|j: int| 0 <= j < hists(outs_now).len() implies #[trigger] hists(outs_now)[j]
        == target_outs[j] by {
        assert(hists(outs_now)[j] == outs_now[j].history());
        if j < h0.len() {
            assert(outs_now[j] == pre_outs[j]);
            assert(hists(pre_outs)[j] == pre_outs[j].history());
            assert(prev_outs[j] == h0[j]);
            assert(target_outs[j] == h0[j]);
        } else if j < pre_outs.len() {
            let jj = j - h0.len();
            assert(0 <= jj < k);
            assert(outs_now[j] == pre_outs[j]);
            assert(hists(pre_outs)[j] == pre_outs[j].history());
            assert(prev_outs[j] == ons_to(u0.take(k), note, channel, velocity)[jj]);
            assert(ons_to(u0.take(k), note, channel, velocity)[jj] == u0.take(k)[jj].push(
                SinkEvent::On { note, channel, velocity },
            ));
            assert(u0.take(k)[jj] == u0[jj]);
            assert(u0.take(k + 1)[jj] == u0[jj]);
            assert(target_outs[j] == ons_to(u0.take(k + 1), note, channel, velocity)[jj]);
            assert(ons_to(u0.take(k + 1), note, channel, velocity)[jj] == u0.take(k + 1)[jj].push(
                SinkEvent::On { note, channel, velocity },
            ));
        } else {
            assert(j == pre_outs.len());
            assert(outs_now[j] == o);
            assert(target_outs[j] == ons_to(u0.take(k + 1), note, channel, velocity)[k]);
            assert(ons_to(u0.take(k + 1), note, channel, velocity)[k] == u0.take(k + 1)[k].push(
                SinkEvent::On { note, channel, velocity },
            ));
            assert(u0.take(k + 1)[k] == u0[k]);
        }
    }
    assert(hists(outs_now) =~= target_outs);
}

/// The allocator. Endpoints are owned exclusively: each one sits either
/// in `unallocated` or in exactly one note's `outputs` queue.
pub struct Midiplexer<O: Output> {
    /// The sounding notes, in insertion order: the first entry is the
    /// earliest-started note still sounding.
    pub notes: Vec<NoteEntry<O>>,
    /// Emptied output queues kept for reuse, so sustained play does not
    /// allocate.
    pub unused: Vec<VecDeque<O>>,
    /// The endpoints currently assigned to no note; taken from the front,
    /// returned at the back.
    pub unallocated: VecDeque<O>,
    /// The fixed number of endpoints supplied at construction.
    pub num_outputs: usize,
    /// Always the sum of the velocities of the sounding notes.
    pub total_velocity: usize,
    /// The optional soft ceiling on endpoints per note.
    pub max_allocation: Option<usize>,
    /// The commands this allocator has itself received, it being an
    /// output endpoint in its own right.
    pub received: Ghost<Seq<SinkEvent>>,
    /// The outcome of every endpoint command this allocator has issued,
    /// in issue order: `None` for success, `Some(e)` for a reported
    /// error. Each public operation returns the first error among the
    /// outcomes of the commands it issued.
    pub outcomes: Ghost<Seq<Option<O::Error>>>,
}

impl<O: Output> Midiplexer<O> {
    /// The ghost image of the allocator.
    pub open spec fn abs(self) -> MpAbs {
        MpAbs {
            notes: entries_abs(self.notes@),
            unalloc: hists(self.unallocated@),
            num_outputs: self.num_outputs as int,
            total_velocity: self.total_velocity as int,
            max_allocation: self.max_allocation,
        }
    }

    /// Every owned endpoint satisfies its own validity condition.
    pub open spec fn sinks_ok(self) -> bool {
        &&& forall|i: int, j: int|
            0 <= i < self.notes@.len() && 0 <= j < self.notes@[i].outputs@.len()
                ==> (#[trigger] self.notes@[i].outputs@[j]).inv()
        &&& forall|j: int|
            0 <= j < self.unallocated@.len() ==> (#[trigger] self.unallocated@[j]).inv()
    }

    /// Every recycled queue really is empty.
    pub open spec fn spares_empty(self) -> bool {
        forall|i: int| 0 <= i < self.unused@.len() ==> (#[trigger] self.unused@[i])@.len() == 0
    }

    /// The bookkeeping invariant, between rebalances as well as after
    /// them.
    pub open spec fn consistent(self) -> bool {
        &&& crate::allocation::wf_abs(self.abs())
        &&& self.sinks_ok()
        &&& self.spares_empty()
    }

    /// What every public operation preserves: the bookkeeping invariant,
    /// plus the rebalanced shape — each note's target is what the
    /// allocation formula says and each note holds exactly its target.
    pub open spec fn well_formed(self) -> bool {
        &&& self.consistent()
        &&& balanced(self.abs())
    }

    /// Build an allocator over `outputs`, which all become idle, in the
    /// supplied order. `max_allocation`, if given, softly caps how many
    /// endpoints a single note may hold.
    pub fn new(outputs: Vec<O>, max_allocation: Option<usize>) -> (r: Midiplexer<O>)
        requires
            forall|i: int|
                0 <= i < outputs@.len() ==> (#[trigger] outputs@[i]).inv() && idle_wf(
                    outputs@[i].history(),
                ),
            (match max_allocation {
                Some(m) => m >= 1,
                None => true,
            }),
        ensures
            r.well_formed(),
            r.abs() == init_abs(hists(outputs@), max_allocation),
            r.received@ == Seq::<SinkEvent>::empty(),
            r.unused@.len() == 0,
            r.outcomes@ == Seq::<Option<O::Error>>::empty(),
    {
        let ghost target_hists = hists(outputs@);
        let mut rest = outputs;
        let mut unallocated: VecDeque<O> = VecDeque::new();
        while rest.len() > 0
            invariant
                hists(unallocated@) + hists(rest@) =~= target_hists,
                unallocated@.len() + rest@.len() == target_hists.len(),
                forall|i: int|
                    0 <= i < rest@.len() ==> (#[trigger] rest@[i]).inv() && idle_wf(
                        rest@[i].history(),
                    ),
                forall|j: int|
                    0 <= j < unallocated@.len() ==> (#[trigger] unallocated@[j]).inv(),
            decreases rest@.len(),
        {
            let o = rest.remove(0);
            unallocated.push_back(o);
            proof {
                assert(hists(unallocated@) + hists(rest@) =~= target_hists);
            }
        }
        let num_outputs = unallocated.len();
        let r = Midiplexer {
            notes: Vec::new(),
            unused: Vec::new(),
            unallocated,
            num_outputs,
            total_velocity: 0,
            max_allocation,
            received: Ghost(Seq::empty()),
            outcomes: Ghost(Seq::empty()),
        };
        proof {
            assert(entries_abs(r.notes@) =~= Seq::<NoteAbs>::empty());
            assert(hists(r.unallocated@) =~= target_hists);
            assert(vels(r.abs().notes) =~= Seq::<int>::empty());
            assert(crate::allocation::out_counts(r.abs().notes) =~= Seq::<int>::empty());
            assert(r.abs() =~~= init_abs(hists(outputs@), max_allocation));
            assert forall|j: int| 0 <= j < r.abs().unalloc.len() implies idle_wf(
                #[trigger] r.abs().unalloc[j],
            ) by {
                assert(r.abs().unalloc[j] == target_hists[j]);
            }
        }
        r
    }

    /// Build an uncapped allocator over `outputs`: the collect-style
    /// construction, equivalent to `new(outputs, None)`.
    pub fn from_outputs(outputs: Vec<O>) -> (r: Midiplexer<O>)
        requires
            forall|i: int|
                0 <= i < outputs@.len() ==> (#[trigger] outputs@[i]).inv() && idle_wf(
                    outputs@[i].history(),
                ),
        ensures
            r.well_formed(),
            r.abs() == init_abs(hists(outputs@), None),
            r.received@ == Seq::<SinkEvent>::empty(),
            r.unused@.len() == 0,
            r.outcomes@ == Seq::<Option<O::Error>>::empty(),
    {
        Midiplexer::new(outputs, None)
    }

    /// Look up the position of `(note, channel)` in the table.
    fn find_note(&self, note: Note, channel: Channel) -> (r: Option<usize>)
        ensures
            match r {
                Some(i) => {
                    &&& i < self.notes@.len()
                    &&& self.notes@[i as int].note == note
                    &&& self.notes@[i as int].channel == channel
                },
                None => !has_key(entries_abs(self.notes@), note, channel),
            },
    {
        let mut i: usize = 0;
        while i < self.notes.len()
            invariant
                i <= self.notes@.len(),
                forall|j: int|
                    0 <= j < i ==> !((#[trigger] self.notes@[j]).note == note
                        && self.notes@[j].channel == channel),
            decreases self.notes@.len() - i,
        {
            if self.notes[i].note == note && self.notes[i].channel == channel {
                return Some(i);
            }
            i = i + 1;
        }
        proof {
            assert forall|j: int| 0 <= j < entries_abs(self.notes@).len() implies !(
            (#[trigger] entries_abs(self.notes@)[j]).note == note && entries_abs(
                self.notes@,
            )[j].channel == channel) by {
                assert(entries_abs(self.notes@)[j] == self.notes@[j].abs());
            }
        }
        None
    }

    /// Drain every endpoint out of `entry` (which has already left the
    /// table), telling each to stop the entry's note as it joins the back
    /// of the idle queue. Returns the first endpoint error; the drain
    /// completes regardless.
    fn drain_entry(&mut self, entry: &mut NoteEntry<O>) -> (first_err: Option<O::Error>)
        requires
            old(entry).note <= 127,
            old(entry).channel <= 15,
            forall|j: int|
                0 <= j < old(entry).outputs@.len() ==> (#[trigger] old(entry).outputs@[j]).inv(),
            forall|j: int|
                0 <= j < old(self).unallocated@.len()
                    ==> (#[trigger] old(self).unallocated@[j]).inv(),
        ensures
            final(entry).outputs@.len() == 0,
            final(entry).note == old(entry).note,
            final(entry).channel == old(entry).channel,
            final(entry).velocity == old(entry).velocity,
            final(entry).target_allocation == old(entry).target_allocation,
            hists(final(self).unallocated@) == hists(old(self).unallocated@) + offs_to(
                hists(old(entry).outputs@),
                old(entry).note,
                old(entry).channel,
            ),
            forall|j: int|
                0 <= j < final(self).unallocated@.len()
                    ==> (#[trigger] final(self).unallocated@[j]).inv(),
            final(self).notes@ == old(self).notes@,
            final(self).unused@ == old(self).unused@,
            final(self).received == old(self).received,
            final(self).num_outputs == old(self).num_outputs,
            final(self).total_velocity == old(self).total_velocity,
            final(self).max_allocation == old(self).max_allocation,
            final(self).outcomes@.take(old(self).outcomes@.len() as int) == old(self).outcomes@,
            final(self).outcomes@.len() == old(self).outcomes@.len() + old(entry).outputs@.len(),
            first_err == first_error(final(self).outcomes@.skip(old(self).outcomes@.len() as int)),
    {
        let note = entry.note;
        let channel = entry.channel;
        let count = entry.outputs.len();
        let ghost h0 = hists(old(entry).outputs@);
        let ghost u0 = hists(old(self).unallocated@);
        let mut first_err: Option<O::Error> = None;
        let ghost r0 = self.outcomes@;
        proof {
            assert(self.outcomes@.take(r0.len() as int) =~= r0);
            assert(self.outcomes@.skip(r0.len() as int) =~= Seq::<Option<O::Error>>::empty());
            assert(first_error(Seq::<Option<O::Error>>::empty()) == None::<O::Error>);
        }
        let mut k: usize = 0;
        while k < count
            invariant
                k <= count,
                count as int == h0.len(),
                note == old(entry).note,
                channel == old(entry).channel,
                note <= 127,
                channel <= 15,
                entry.note == old(entry).note,
                entry.channel == old(entry).channel,
                entry.velocity == old(entry).velocity,
                entry.target_allocation == old(entry).target_allocation,
                hists(entry.outputs@) == h0.skip(k as int),
                hists(self.unallocated@) == u0 + offs_to(h0.take(k as int), note, channel),
                forall|j: int|
                    0 <= j < entry.outputs@.len() ==> (#[trigger] entry.outputs@[j]).inv(),
                forall|j: int|
                    0 <= j < self.unallocated@.len()
                        ==> (#[trigger] self.unallocated@[j]).inv(),
                self.notes@ == old(self).notes@,
                self.unused@ == old(self).unused@,
                self.received == old(self).received,
                self.num_outputs == old(self).num_outputs,
                self.total_velocity == old(self).total_velocity,
                self.max_allocation == old(self).max_allocation,
                r0 == old(self).outcomes@,
                self.outcomes@.take(r0.len() as int) == r0,
                self.outcomes@.len() == r0.len() + k,
                first_err == first_error(self.outcomes@.skip(r0.len() as int)),
            decreases count - k,
        {
            let ghost pre_outs = entry.outputs@;
            let ghost pre_un = self.unallocated@;
            let popped = entry.outputs.pop_front();
            match popped {
                Some(mut o) => {
                    proof {
                        assert(o == pre_outs[0]);
                        assert(o.history() == hists(pre_outs)[0]);
                        assert(o.history() == h0[k as int]);
                    }
                    let res = o.off(note, channel);
                    let ghost oc = (if res is Err {
                        Some(res->Err_0)
                    } else {
                        None::<O::Error>
                    });
                    let ghost pre_outcomes = self.outcomes@;
                    self.outcomes = Ghost(self.outcomes@.push(oc));
                    if let Err(e) = res {
                        if first_err.is_none() {
                            first_err = Some(e);
                        }
                    }
                    self.unallocated.push_back(o);
                    proof {
                        assert(hists(pre_outs) == h0.skip(k as int));
                        assert(pre_outs.len() == hists(pre_outs).len());
                        assert(o.history() == h0[k as int].push(SinkEvent::Off { note, channel }));
                        lemma_drain_step(
                            pre_outs,
                            entry.outputs@,
                            pre_un,
                            self.unallocated@,
                            o,
                            h0,
                            u0,
                            k as int,
                            note,
                            channel,
                        );
                        assert(self.outcomes@ == pre_outcomes.push(oc));
                        lemma_first_error_push(pre_outcomes.skip(r0.len() as int), oc);
                        assert(self.outcomes@.skip(r0.len() as int) =~= pre_outcomes.skip(
                            r0.len() as int,
                        ).push(oc));
                        assert(self.outcomes@.take(r0.len() as int) =~= r0);
                        assert(first_err == first_error(self.outcomes@.skip(r0.len() as int)));
                    }
                }
                None => {
                    proof {
                        assert(hists(pre_outs) == h0.skip(k as int));
                        assert(pre_outs.len() == hists(pre_outs).len());
                        assert(false);
                    }
                }
            }
            k = k + 1;
        }
        proof {
            assert(hists(entry.outputs@).len() == entry.outputs@.len());
            assert(h0.take(count as int) =~= h0);
        }
        first_err
    }

    /// Rebalance: recompute every note's target allocation, newest note
    /// first, then shrink over-allocated notes into the idle queue and
    /// grow under-allocated notes out of it. Frees first, grows second,
    /// so endpoints freed from shrinking notes are available to growing
    /// ones. Returns the first endpoint error; every planned endpoint
    /// call is still made and the bookkeeping always completes, so the
    /// invariant holds even on the error path.
    fn adjust(&mut self) -> (r: Result<(), O::Error>)
        requires
            old(self).consistent(),
        ensures
            final(self).consistent(),
            balanced(final(self).abs()),
            final(self).abs() == adjust_abs(old(self).abs()),
            final(self).received == old(self).received,
            final(self).unused@ == old(self).unused@,
            final(self).outcomes@.take(old(self).outcomes@.len() as int) == old(self).outcomes@,
            final(self).outcomes@.len() >= old(self).outcomes@.len(),
            final(self).outcomes@.len() == old(self).outcomes@.len() + adjust_call_count(
                old(self).abs(),
            ),
            (match first_error(final(self).outcomes@.skip(old(self).outcomes@.len() as int)) {
                Some(e) => r == Err::<(), O::Error>(e),
                None => r is Ok,
            }),
    {
        let ghost m0 = self.abs();
        let ghost r0 = self.outcomes@;
        proof {
            lemma_adjust_abs(m0);
            assert(self.outcomes@.take(r0.len() as int) =~= r0);
            assert(self.outcomes@.skip(r0.len() as int) =~= Seq::<Option<O::Error>>::empty());
            assert(first_error(Seq::<Option<O::Error>>::empty()) == None::<O::Error>);
        }
        if self.notes.len() == 0 {
            return Ok(());
        }
        let ghost ts = targets(m0.notes, m0.max_allocation, m0.num_outputs, m0.total_velocity);
        let ghost ns1 = assign_targets(m0.notes, ts);
        let ghost ns2 = shrink_notes(ns1);
        proof {
            lemma_targets_rec_pointwise(
                m0.notes,
                m0.num_outputs,
                m0.max_allocation,
                m0.num_outputs,
                m0.total_velocity,
            );
            lemma_targets_rec_len(
                m0.notes,
                m0.num_outputs,
                m0.max_allocation,
                m0.num_outputs,
                m0.total_velocity,
            );
            assert(vels(m0.notes).len() == m0.notes.len());
            assert forall|i: int| 0 <= i < vels(m0.notes).len() implies 1 <= #[trigger] vels(
                m0.notes,
            )[i] <= 127 by {
                assert(entry_wf(m0.notes[i]));
            }
            lemma_sum_bounds(vels(m0.notes), 1, 127);
            assert(m0.total_velocity >= 1);
        }
        let num_outputs = self.num_outputs;
        let total_velocity = self.total_velocity;
        let cap: bool;
        let cap_m: usize;
        match self.max_allocation {
            Some(mm) => {
                proof {
                    lemma_mul_bound_u128(
                        mm as u128,
                        total_velocity as u128,
                        0xffff_ffff_ffff_ffff,
                        0xffff_ffff_ffff_ffff,
                    );
                }
                cap = (mm as u128) * (total_velocity as u128) < (num_outputs as u128) * 128;
                cap_m = mm;
            }
            None => {
                cap = false;
                cap_m = 0;
            }
        }
        proof {
            assert(cap == cap_binds(m0.max_allocation, m0.num_outputs, m0.total_velocity));
        }
        let mut err: Option<O::Error> = None;
        let mut remaining: usize = num_outputs;
        let mut idx: usize = self.notes.len();
        proof {
            assert(ts.skip(idx as int) =~= Seq::<int>::empty());
            assert(freed_from(ns1, idx as int) =~= Seq::<Seq<SinkEvent>>::empty());
            assert(hists(self.unallocated@) =~= m0.unalloc + freed_from(ns1, idx as int));
        }
        while idx > 0
            invariant
                idx <= self.notes@.len(),
                self.notes@.len() == m0.notes.len(),
                old(self).consistent(),
                m0 == old(self).abs(),
                m0.notes.len() > 0,
                m0.total_velocity >= 1,
                ts == targets(m0.notes, m0.max_allocation, m0.num_outputs, m0.total_velocity),
                ts.len() == m0.notes.len(),
                ns1 == assign_targets(m0.notes, ts),
                ns2 == shrink_notes(ns1),
                forall|j: int|
                    0 <= j < idx ==> #[trigger] self.notes@[j] == old(self).notes@[j],
                forall|j: int|
                    idx <= j < self.notes@.len() ==> (#[trigger] self.notes@[j]).abs() == ns2[j],
                hists(self.unallocated@) == m0.unalloc + freed_from(ns1, idx as int),
                forall|i: int, j: int|
                    0 <= i < self.notes@.len() && 0 <= j < self.notes@[i].outputs@.len()
                        ==> (#[trigger] self.notes@[i].outputs@[j]).inv(),
                forall|j: int|
                    0 <= j < self.unallocated@.len() ==> (#[trigger] self.unallocated@[j]).inv(),
                self.unused@ == old(self).unused@,
                self.received == old(self).received,
                self.num_outputs == old(self).num_outputs,
                self.total_velocity == old(self).total_velocity,
                self.max_allocation == old(self).max_allocation,
                num_outputs == self.num_outputs,
                total_velocity == self.total_velocity,
                cap == cap_binds(m0.max_allocation, m0.num_outputs, m0.total_velocity),
                cap ==> m0.max_allocation == Some(cap_m),
                remaining as int == m0.num_outputs - sum_of(ts.skip(idx as int)),
                r0 == old(self).outcomes@,
                self.outcomes@.take(r0.len() as int) == r0,
                self.outcomes@.len() == r0.len() + freed_from(ns1, idx as int).len(),
                err == first_error(self.outcomes@.skip(r0.len() as int)),
            decreases idx,
        {
            idx = idx - 1;
            let ghost notes_head = self.notes@;
            proof {
                assert(self.notes@[idx as int] == old(self).notes@[idx as int]);
                assert(m0.notes[idx as int] == old(self).notes@[idx as int].abs());
                assert(entry_wf(m0.notes[idx as int]));
                lemma_targets_rec_pointwise(
                    m0.notes,
                    m0.num_outputs,
                    m0.max_allocation,
                    m0.num_outputs,
                    m0.total_velocity,
                );
            }
            let vel = self.notes[idx].velocity;
            proof {
                lemma_mul_bound_u128(vel as u128, cap_m as u128, 255, 0xffff_ffff_ffff_ffff);
                lemma_mul_bound_u128(vel as u128, num_outputs as u128, 255, 0xffff_ffff_ffff_ffff);
            }
            let share: u128 = if cap {
                (vel as u128) * (cap_m as u128) / 127
            } else {
                (vel as u128) * (num_outputs as u128) / (total_velocity as u128)
            };
            proof {
                assert(share == ideal_share(
                    vel as int,
                    m0.max_allocation,
                    m0.num_outputs,
                    m0.total_velocity,
                ));
            }
            let lifted: u128 = if share < 1 {
                1
            } else {
                share
            };
            let target: usize = if lifted > (remaining as u128) {
                remaining
            } else {
                lifted as usize
            };
            proof {
                lemma_sum_skip_step(ts, idx as int);
                assert(remaining as int == m0.num_outputs - sum_of(ts.skip(idx as int + 1)));
                assert(ts[idx as int] == clamp_share(
                    ideal_share(
                        m0.notes[idx as int].velocity as int,
                        m0.max_allocation,
                        m0.num_outputs,
                        m0.total_velocity,
                    ),
                    m0.num_outputs - sum_of(ts.skip(idx as int + 1)),
                ));
                assert(vel == m0.notes[idx as int].velocity);
                assert(target as int == ts[idx as int]);
                assert(target <= remaining);
            }
            self.notes[idx].target_allocation = target;
            remaining = remaining - target;
            let ghost pre_entry = self.notes@[idx as int];
            let ghost pre_outcomes = self.outcomes@;
            let have = self.notes[idx].outputs.len();
            if have > target {
                let cnt = have - target;
                let shrink_err = self.shrink_note(idx, cnt);
                if let Some(e) = shrink_err {
                    if err.is_none() {
                        err = Some(e);
                    }
                }
                proof {
                    lemma_first_error_concat(
                        pre_outcomes.skip(r0.len() as int),
                        self.outcomes@.skip(pre_outcomes.len() as int),
                    );
                    assert(self.outcomes@.skip(r0.len() as int) =~= pre_outcomes.skip(
                        r0.len() as int,
                    ) + self.outcomes@.skip(pre_outcomes.len() as int));
                    assert(self.outcomes@.take(r0.len() as int) =~= r0);
                    assert(err == first_error(self.outcomes@.skip(r0.len() as int)));
                    assert(shrink_count(ns1[idx as int]) == cnt as int);
                    assert(hists(pre_entry.outputs@) == ns1[idx as int].outputs);
                    assert((self.notes@[idx as int]).abs().outputs == ns1[idx as int].outputs.skip(
                        cnt as int,
                    ));
                    assert((self.notes@[idx as int]).abs() == ns2[idx as int]);
                    assert(freed_of(ns1[idx as int]) == offs_to(
                        ns1[idx as int].outputs.take(cnt as int),
                        ns1[idx as int].note,
                        ns1[idx as int].channel,
                    ));
                    assert(hists(self.unallocated@) =~= m0.unalloc + freed_from(ns1, idx as int));
                }
            } else {
                proof {
                    assert(shrink_count(ns1[idx as int]) == 0);
                    assert(ns1[idx as int].outputs.skip(0) =~= ns1[idx as int].outputs);
                    assert((self.notes@[idx as int]).abs() == ns2[idx as int]);
                    assert(freed_of(ns1[idx as int]).len() == 0);
                    assert(freed_of(ns1[idx as int]) =~= Seq::<Seq<SinkEvent>>::empty());
                    assert(hists(self.unallocated@) =~= m0.unalloc + freed_from(ns1, idx as int));
                }
            }
            proof {
                assert forall|i2: int, j2: int|
                    0 <= i2 < self.notes@.len() && 0 <= j2
                        < self.notes@[i2].outputs@.len() implies (
                #[trigger] self.notes@[i2].outputs@[j2]).inv() by {
                    if i2 != idx {
                        assert(self.notes@[i2] == notes_head[i2]);
                        assert(notes_head[i2].outputs@[j2].inv());
                    }
                }
            }
        }
        // The shrink pass is done; everything freed sits in the idle
        // queue, and the grow pass now serves under-allocated notes from
        // it, newest first.
        let ghost pool1 = m0.unalloc + freed_from(ns1, 0);
        let mut idx: usize = self.notes.len();
        proof {
            assert(pool_from(ns2, pool1, idx as int) == pool1);
            assert(self.outcomes@.len() == r0.len() + freed_from(ns1, 0).len() + (pool1.len()
                - pool_from(ns2, pool1, idx as int).len()));
        }
        while idx > 0
            invariant
                idx <= self.notes@.len(),
                self.notes@.len() == m0.notes.len(),
                old(self).consistent(),
                m0 == old(self).abs(),
                m0.notes.len() > 0,
                ts == targets(m0.notes, m0.max_allocation, m0.num_outputs, m0.total_velocity),
                ts.len() == m0.notes.len(),
                ns1 == assign_targets(m0.notes, ts),
                ns2 == shrink_notes(ns1),
                pool1 == m0.unalloc + freed_from(ns1, 0),
                forall|j: int|
                    0 <= j < idx ==> (#[trigger] self.notes@[j]).abs() == ns2[j],
                forall|j: int|
                    idx <= j < self.notes@.len() ==> (#[trigger] self.notes@[j]).abs()
                        == grow_notes(ns2, pool1)[j],
                hists(self.unallocated@) == pool_from(ns2, pool1, idx as int),
                forall|i: int, j: int|
                    0 <= i < self.notes@.len() && 0 <= j < self.notes@[i].outputs@.len()
                        ==> (#[trigger] self.notes@[i].outputs@[j]).inv(),
                forall|j: int|
                    0 <= j < self.unallocated@.len() ==> (#[trigger] self.unallocated@[j]).inv(),
                self.unused@ == old(self).unused@,
                self.received == old(self).received,
                self.num_outputs == old(self).num_outputs,
                self.total_velocity == old(self).total_velocity,
                self.max_allocation == old(self).max_allocation,
                r0 == old(self).outcomes@,
                self.outcomes@.take(r0.len() as int) == r0,
                self.outcomes@.len() == r0.len() + freed_from(ns1, 0).len() + (pool1.len()
                    - pool_from(ns2, pool1, idx as int).len()),
                err == first_error(self.outcomes@.skip(r0.len() as int)),
            decreases idx,
        {
            idx = idx - 1;
            let ghost notes_head = self.notes@;
            let ghost pre_outcomes = self.outcomes@;
            let ghost p = pool_from(ns2, pool1, idx as int + 1);
            proof {
                assert((self.notes@[idx as int]).abs() == ns2[idx as int]);
                assert(entry_wf(m0.notes[idx as int]));
                assert(ns2[idx as int].note == m0.notes[idx as int].note);
                assert(ns2[idx as int].channel == m0.notes[idx as int].channel);
                assert(ns2[idx as int].velocity == m0.notes[idx as int].velocity);
            }
            let have = self.notes[idx].outputs.len();
            let target = self.notes[idx].target_allocation;
            if have < target {
                let avail = self.unallocated.len();
                let need = target - have;
                let cnt = if need > avail {
                    avail
                } else {
                    need
                };
                proof {
                    assert(hists(self.unallocated@).len() == self.unallocated@.len());
                    assert(p.len() == avail as int);
                    assert(grow_need(ns2[idx as int]) == need as int);
                    assert(grow_take(ns2[idx as int], p) == cnt as int);
                }
                let grow_err = self.grow_note(idx, cnt);
                if let Some(e) = grow_err {
                    if err.is_none() {
                        err = Some(e);
                    }
                }
                proof {
                    lemma_pool_from_is_suffix(ns2, pool1, idx as int + 1);
                    assert(pre_outcomes.len() >= r0.len());
                    lemma_first_error_concat(
                        pre_outcomes.skip(r0.len() as int),
                        self.outcomes@.skip(pre_outcomes.len() as int),
                    );
                    assert(self.outcomes@.skip(r0.len() as int) =~= pre_outcomes.skip(
                        r0.len() as int,
                    ) + self.outcomes@.skip(pre_outcomes.len() as int));
                    assert(self.outcomes@.take(r0.len() as int) =~= r0);
                    assert(err == first_error(self.outcomes@.skip(r0.len() as int)));
                    assert((self.notes@[idx as int]).abs().outputs == ns2[idx as int].outputs
                        + ons_to(
                        p.take(cnt as int),
                        ns2[idx as int].note,
                        ns2[idx as int].channel,
                        ns2[idx as int].velocity,
                    ));
                    assert((self.notes@[idx as int]).abs() == grow_entry(ns2[idx as int], p));
                    assert((self.notes@[idx as int]).abs() == grow_notes(ns2, pool1)[idx as int]);
                    assert(hists(self.unallocated@) == p.skip(cnt as int));
                    assert(hists(self.unallocated@) == pool_from(ns2, pool1, idx as int));
                }
            } else {
                proof {
                    assert(grow_need(ns2[idx as int]) == 0);
                    assert(grow_take(ns2[idx as int], p) == 0);
                    assert(ns2[idx as int].outputs + ons_to(
                        p.take(0),
                        ns2[idx as int].note,
                        ns2[idx as int].channel,
                        ns2[idx as int].velocity,
                    ) =~= ns2[idx as int].outputs);
                    assert((self.notes@[idx as int]).abs() == grow_entry(ns2[idx as int], p));
                    assert((self.notes@[idx as int]).abs() == grow_notes(ns2, pool1)[idx as int]);
                    assert(p.skip(0) =~= p);
                    assert(hists(self.unallocated@) == pool_from(ns2, pool1, idx as int));
                }
            }
            proof {
                assert forall|i2: int, j2: int|
                    0 <= i2 < self.notes@.len() && 0 <= j2
                        < self.notes@[i2].outputs@.len() implies (
                #[trigger] self.notes@[i2].outputs@[j2]).inv() by {
                    if i2 != idx {
                        assert(self.notes@[i2] == notes_head[i2]);
                        assert(notes_head[i2].outputs@[j2].inv());
                    }
                }
            }
        }
        proof {
            assert(entries_abs(self.notes@) =~= grow_notes(ns2, pool1));
            assert(self.abs() == adjust_abs(m0));
            lemma_pool_from_is_suffix(ns2, pool1, 0);
            assert(self.outcomes@.len() >= r0.len());
        }
        match err {
            None => Ok(()),
            Some(e) => Err(e),
        }
    }

    /// Drop the `count` oldest endpoints from note `idx`, telling each to
    /// stop the note as it moves to the back of the idle queue. Returns
    /// the first endpoint error; bookkeeping completes regardless.
    fn shrink_note(&mut self, idx: usize, count: usize) -> (first_err: Option<O::Error>)
        requires
            idx < old(self).notes@.len(),
            count <= old(self).notes@[idx as int].outputs@.len(),
            old(self).notes@[idx as int].note <= 127,
            old(self).notes@[idx as int].channel <= 15,
            forall|j: int|
                0 <= j < old(self).notes@[idx as int].outputs@.len()
                    ==> (#[trigger] old(self).notes@[idx as int].outputs@[j]).inv(),
            forall|j: int|
                0 <= j < old(self).unallocated@.len()
                    ==> (#[trigger] old(self).unallocated@[j]).inv(),
        ensures
            final(self).notes@.len() == old(self).notes@.len(),
            forall|j: int|
                0 <= j < old(self).notes@.len() && j != idx ==> #[trigger] final(self).notes@[j]
                    == old(self).notes@[j],
            final(self).notes@[idx as int].note == old(self).notes@[idx as int].note,
            final(self).notes@[idx as int].channel == old(self).notes@[idx as int].channel,
            final(self).notes@[idx as int].velocity == old(self).notes@[idx as int].velocity,
            final(self).notes@[idx as int].target_allocation == old(self).notes@[
                idx as int
            ].target_allocation,
            hists(final(self).notes@[idx as int].outputs@) == hists(
                old(self).notes@[idx as int].outputs@,
            ).skip(count as int),
            hists(final(self).unallocated@) == hists(old(self).unallocated@) + offs_to(
                hists(old(self).notes@[idx as int].outputs@).take(count as int),
                old(self).notes@[idx as int].note,
                old(self).notes@[idx as int].channel,
            ),
            forall|j: int|
                0 <= j < final(self).notes@[idx as int].outputs@.len()
                    ==> (#[trigger] final(self).notes@[idx as int].outputs@[j]).inv(),
            forall|j: int|
                0 <= j < final(self).unallocated@.len()
                    ==> (#[trigger] final(self).unallocated@[j]).inv(),
            final(self).unused@ == old(self).unused@,
            final(self).received == old(self).received,
            final(self).num_outputs == old(self).num_outputs,
            final(self).total_velocity == old(self).total_velocity,
            final(self).max_allocation == old(self).max_allocation,
            final(self).outcomes@.take(old(self).outcomes@.len() as int) == old(self).outcomes@,
            final(self).outcomes@.len() == old(self).outcomes@.len() + count as int,
            first_err == first_error(final(self).outcomes@.skip(old(self).outcomes@.len() as int)),
    {
        let note = self.notes[idx].note;
        let channel = self.notes[idx].channel;
        let ghost h0 = hists(old(self).notes@[idx as int].outputs@);
        let ghost u0 = hists(old(self).unallocated@);
        let mut first_err: Option<O::Error> = None;
        let ghost r0 = self.outcomes@;
        proof {
            assert(self.outcomes@.take(r0.len() as int) =~= r0);
            assert(self.outcomes@.skip(r0.len() as int) =~= Seq::<Option<O::Error>>::empty());
            assert(first_error(Seq::<Option<O::Error>>::empty()) == None::<O::Error>);
        }
        let mut k: usize = 0;
        while k < count
            invariant
                k <= count,
                idx < self.notes@.len(),
                self.notes@.len() == old(self).notes@.len(),
                count <= h0.len(),
                forall|j: int|
                    0 <= j < old(self).notes@.len() && j != idx ==> #[trigger] self.notes@[j]
                        == old(self).notes@[j],
                self.notes@[idx as int].note == note,
                self.notes@[idx as int].channel == channel,
                note == old(self).notes@[idx as int].note,
                channel == old(self).notes@[idx as int].channel,
                note <= 127,
                channel <= 15,
                self.notes@[idx as int].velocity == old(self).notes@[idx as int].velocity,
                self.notes@[idx as int].target_allocation == old(self).notes@[
                    idx as int
                ].target_allocation,
                hists(self.notes@[idx as int].outputs@) == h0.skip(k as int),
                hists(self.unallocated@) == u0 + offs_to(h0.take(k as int), note, channel),
                forall|j: int|
                    0 <= j < self.notes@[idx as int].outputs@.len()
                        ==> (#[trigger] self.notes@[idx as int].outputs@[j]).inv(),
                forall|j: int|
                    0 <= j < self.unallocated@.len()
                        ==> (#[trigger] self.unallocated@[j]).inv(),
                self.unused@ == old(self).unused@,
                self.received == old(self).received,
                self.num_outputs == old(self).num_outputs,
                self.total_velocity == old(self).total_velocity,
                self.max_allocation == old(self).max_allocation,
                r0 == old(self).outcomes@,
                self.outcomes@.take(r0.len() as int) == r0,
                self.outcomes@.len() == r0.len() + k,
                first_err == first_error(self.outcomes@.skip(r0.len() as int)),
            decreases count - k,
        {
            let ghost pre_outs = self.notes@[idx as int].outputs@;
            let ghost pre_un = self.unallocated@;
            let popped = self.notes[idx].outputs.pop_front();
            match popped {
                Some(mut o) => {
                    proof {
                        assert(o == pre_outs[0]);
                        assert(o.history() == hists(pre_outs)[0]);
                        assert(o.history() == h0[k as int]);
                    }
                    let res = o.off(note, channel);
                    let ghost oc = (if res is Err {
                        Some(res->Err_0)
                    } else {
                        None::<O::Error>
                    });
                    let ghost pre_outcomes = self.outcomes@;
                    self.outcomes = Ghost(self.outcomes@.push(oc));
                    if let Err(e) = res {
                        if first_err.is_none() {
                            first_err = Some(e);
                        }
                    }
                    self.unallocated.push_back(o);
                    proof {
                        assert(hists(pre_outs) == h0.skip(k as int));
                        assert(pre_outs.len() == hists(pre_outs).len());
                        assert(o.history() == h0[k as int].push(SinkEvent::Off { note, channel }));
                        lemma_drain_step(
                            pre_outs,
                            self.notes@[idx as int].outputs@,
                            pre_un,
                            self.unallocated@,
                            o,
                            h0,
                            u0,
                            k as int,
                            note,
                            channel,
                        );
                        assert(self.outcomes@ == pre_outcomes.push(oc));
                        lemma_first_error_push(pre_outcomes.skip(r0.len() as int), oc);
                        assert(self.outcomes@.skip(r0.len() as int) =~= pre_outcomes.skip(
                            r0.len() as int,
                        ).push(oc));
                        assert(self.outcomes@.take(r0.len() as int) =~= r0);
                        assert(first_err == first_error(self.outcomes@.skip(r0.len() as int)));
                    }
                }
                None => {
                    proof {
                        assert(hists(pre_outs) == h0.skip(k as int));
                        assert(pre_outs.len() == hists(pre_outs).len());
                        assert(false);
                    }
                }
            }
            k = k + 1;
        }
        first_err
    }

    /// Hand note `idx` the `count` front endpoints of the idle queue,
    /// telling each to start the note as it joins the back of the note's
    /// queue. Returns the first endpoint error; bookkeeping completes
    /// regardless.
    fn grow_note(&mut self, idx: usize, count: usize) -> (first_err: Option<O::Error>)
        requires
            idx < old(self).notes@.len(),
            count <= old(self).unallocated@.len(),
            old(self).notes@[idx as int].note <= 127,
            old(self).notes@[idx as int].channel <= 15,
            1 <= old(self).notes@[idx as int].velocity <= 127,
            forall|j: int|
                0 <= j < old(self).unallocated@.len()
                    ==> (#[trigger] old(self).unallocated@[j]).inv(),
            forall|j: int|
                0 <= j < old(self).notes@[idx as int].outputs@.len()
                    ==> (#[trigger] old(self).notes@[idx as int].outputs@[j]).inv(),
        ensures
            final(self).notes@.len() == old(self).notes@.len(),
            forall|j: int|
                0 <= j < old(self).notes@.len() && j != idx ==> #[trigger] final(self).notes@[j]
                    == old(self).notes@[j],
            final(self).notes@[idx as int].note == old(self).notes@[idx as int].note,
            final(self).notes@[idx as int].channel == old(self).notes@[idx as int].channel,
            final(self).notes@[idx as int].velocity == old(self).notes@[idx as int].velocity,
            final(self).notes@[idx as int].target_allocation == old(self).notes@[
                idx as int
            ].target_allocation,
            hists(final(self).notes@[idx as int].outputs@) == hists(
                old(self).notes@[idx as int].outputs@,
            ) + ons_to(
                hists(old(self).unallocated@).take(count as int),
                old(self).notes@[idx as int].note,
                old(self).notes@[idx as int].channel,
                old(self).notes@[idx as int].velocity,
            ),
            hists(final(self).unallocated@) == hists(old(self).unallocated@).skip(count as int),
            forall|j: int|
                0 <= j < final(self).notes@[idx as int].outputs@.len()
                    ==> (#[trigger] final(self).notes@[idx as int].outputs@[j]).inv(),
            forall|j: int|
                0 <= j < final(self).unallocated@.len()
                    ==> (#[trigger] final(self).unallocated@[j]).inv(),
            final(self).unused@ == old(self).unused@,
            final(self).received == old(self).received,
            final(self).num_outputs == old(self).num_outputs,
            final(self).total_velocity == old(self).total_velocity,
            final(self).max_allocation == old(self).max_allocation,
            final(self).outcomes@.take(old(self).outcomes@.len() as int) == old(self).outcomes@,
            final(self).outcomes@.len() == old(self).outcomes@.len() + count as int,
            first_err == first_error(final(self).outcomes@.skip(old(self).outcomes@.len() as int)),
    {
        let note = self.notes[idx].note;
        let channel = self.notes[idx].channel;
        let velocity = self.notes[idx].velocity;
        let ghost h0 = hists(old(self).notes@[idx as int].outputs@);
        let ghost u0 = hists(old(self).unallocated@);
        let mut first_err: Option<O::Error> = None;
        let ghost r0 = self.outcomes@;
        proof {
            assert(self.outcomes@.take(r0.len() as int) =~= r0);
            assert(self.outcomes@.skip(r0.len() as int) =~= Seq::<Option<O::Error>>::empty());
            assert(first_error(Seq::<Option<O::Error>>::empty()) == None::<O::Error>);
        }
        let mut k: usize = 0;
        while k < count
            invariant
                k <= count,
                idx < self.notes@.len(),
                self.notes@.len() == old(self).notes@.len(),
                count <= u0.len(),
                forall|j: int|
                    0 <= j < old(self).notes@.len() && j != idx ==> #[trigger] self.notes@[j]
                        == old(self).notes@[j],
                self.notes@[idx as int].note == note,
                self.notes@[idx as int].channel == channel,
                self.notes@[idx as int].velocity == velocity,
                note == old(self).notes@[idx as int].note,
                channel == old(self).notes@[idx as int].channel,
                velocity == old(self).notes@[idx as int].velocity,
                note <= 127,
                channel <= 15,
                1 <= velocity <= 127,
                self.notes@[idx as int].target_allocation == old(self).notes@[
                    idx as int
                ].target_allocation,
                hists(self.notes@[idx as int].outputs@) == h0 + ons_to(
                    u0.take(k as int),
                    note,
                    channel,
                    velocity,
                ),
                hists(self.unallocated@) == u0.skip(k as int),
                forall|j: int|
                    0 <= j < self.notes@[idx as int].outputs@.len()
                        ==> (#[trigger] self.notes@[idx as int].outputs@[j]).inv(),
                forall|j: int|
                    0 <= j < self.unallocated@.len()
                        ==> (#[trigger] self.unallocated@[j]).inv(),
                self.unused@ == old(self).unused@,
                self.received == old(self).received,
                self.num_outputs == old(self).num_outputs,
                self.total_velocity == old(self).total_velocity,
                self.max_allocation == old(self).max_allocation,
                r0 == old(self).outcomes@,
                self.outcomes@.take(r0.len() as int) == r0,
                self.outcomes@.len() == r0.len() + k,
                first_err == first_error(self.outcomes@.skip(r0.len() as int)),
            decreases count - k,
        {
            let ghost pre_outs = self.notes@[idx as int].outputs@;
            let ghost pre_un = self.unallocated@;
            let popped = self.unallocated.pop_front();
            match popped {
                Some(mut o) => {
                    proof {
                        assert(o == pre_un[0]);
                        assert(o.history() == hists(pre_un)[0]);
                        assert(o.history() == u0[k as int]);
                    }
                    let res = o.on(note, channel, velocity);
                    let ghost oc = (if res is Err {
                        Some(res->Err_0)
                    } else {
                        None::<O::Error>
                    });
                    let ghost pre_outcomes = self.outcomes@;
                    self.outcomes = Ghost(self.outcomes@.push(oc));
                    if let Err(e) = res {
                        if first_err.is_none() {
                            first_err = Some(e);
                        }
                    }
                    self.notes[idx].outputs.push_back(o);
                    proof {
                        assert(hists(pre_un) == u0.skip(k as int));
                        assert(pre_un.len() == hists(pre_un).len());
                        assert(o.history() == u0[k as int].push(
                            SinkEvent::On { note, channel, velocity },
                        ));
                        lemma_grow_step(
                            pre_un,
                            self.unallocated@,
                            pre_outs,
                            self.notes@[idx as int].outputs@,
                            o,
                            h0,
                            u0,
                            k as int,
                            note,
                            channel,
                            velocity,
                        );
                        assert(self.outcomes@ == pre_outcomes.push(oc));
                        lemma_first_error_push(pre_outcomes.skip(r0.len() as int), oc);
                        assert(self.outcomes@.skip(r0.len() as int) =~= pre_outcomes.skip(
                            r0.len() as int,
                        ).push(oc));
                        assert(self.outcomes@.take(r0.len() as int) =~= r0);
                        assert(first_err == first_error(self.outcomes@.skip(r0.len() as int)));
                    }
                }
                None => {
                    proof {
                        assert(hists(pre_un) == u0.skip(k as int));
                        assert(pre_un.len() == hists(pre_un).len());
                        assert(false);
                    }
                }
            }
            k = k + 1;
        }
        first_err
    }
}

impl<O: Output> Output for Midiplexer<O> {
    type Error = O::Error;

    open spec fn history(&self) -> Seq<SinkEvent> {
        self.received@
    }

    open spec fn inv(&self) -> bool {
        self.well_formed()
    }

    /// Record `(note, channel)` at `velocity`: an unseen key enters at
    /// the end of the insertion order, a sounding one keeps its place,
    /// and a rebalance runs exactly when the velocity actually changed.
    /// The first endpoint error is returned; bookkeeping completes
    /// regardless, as if every call had succeeded.
    fn on(&mut self, note: Note, channel: Channel, velocity: Velocity) -> (r: Result<
        (),
        O::Error,
    >)
        ensures
            final(self).abs() == on_abs(old(self).abs(), note, channel, velocity),
            final(self).well_formed(),
            has_key(old(self).abs().notes, note, channel) && old(self).abs().notes[key_index(
                old(self).abs().notes,
                note,
                channel,
            )].velocity == velocity ==> r is Ok,
            final(self).unused@ == (if has_key(old(self).abs().notes, note, channel) {
                old(self).unused@
            } else if old(self).unused@.len() > 0 {
                old(self).unused@.drop_last()
            } else {
                old(self).unused@
            }),
            final(self).outcomes@.take(old(self).outcomes@.len() as int) == old(self).outcomes@,
            final(self).outcomes@.len() == old(self).outcomes@.len() + on_call_count(
                old(self).abs(),
                note,
                channel,
                velocity,
            ),
            (match first_error(final(self).outcomes@.skip(old(self).outcomes@.len() as int)) {
                Some(e) => r == Err::<(), O::Error>(e),
                None => r is Ok,
            }),
    {
        self.received = Ghost(self.received@.push(SinkEvent::On { note, channel, velocity }));
        let ghost m0 = self.abs();
        let ghost r0 = self.outcomes@;
        match self.find_note(note, channel) {
            Some(i) => {
                proof {
                    lemma_key_index(m0.notes, note, channel, i as int);
                }
                let stored = self.notes[i].velocity;
                if stored == velocity {
                    proof {
                        assert(self.outcomes@.take(r0.len() as int) =~= r0);
                        assert(self.outcomes@.skip(r0.len() as int)
                            =~= Seq::<Option<O::Error>>::empty());
                        assert(first_error(Seq::<Option<O::Error>>::empty()) == None::<O::Error>);
                    }
                    return Ok(());
                }
                proof {
                    assert(entry_wf(m0.notes[i as int]));
                    assert forall|q: int| 0 <= q < m0.notes.len() implies (
                    #[trigger] m0.notes[q]).note <= 127 && m0.notes[q].channel <= 15 by {
                        assert(entry_wf(m0.notes[q]));
                    }
                    lemma_table_size(m0.notes);
                    assert forall|q: int| 0 <= q < vels(m0.notes).len() implies 1 <= #[trigger] vels(
                        m0.notes,
                    )[q] <= 127 by {
                        assert(entry_wf(m0.notes[q]));
                    }
                    lemma_sum_bounds(vels(m0.notes), 1, 127);
                    lemma_sum_element_le(vels(m0.notes), i as int);
                    assert(vels(m0.notes)[i as int] == stored as int);
                    lemma_sum_update(vels(m0.notes), i as int, velocity as int);
                }
                self.total_velocity = self.total_velocity - stored as usize + velocity as usize;
                self.notes[i].velocity = velocity;
                let ghost m1 = MpAbs {
                    notes: m0.notes.update(
                        i as int,
                        NoteAbs { velocity, ..m0.notes[i as int] },
                    ),
                    total_velocity: m0.total_velocity - stored as int + velocity as int,
                    ..m0
                };
                proof {
                    assert forall|q: int| 0 <= q < self.notes@.len() implies #[trigger] entries_abs(
                        self.notes@,
                    )[q] == m1.notes[q] by {
                        assert(entries_abs(self.notes@)[q] == self.notes@[q].abs());
                        if q != i {
                            assert(self.notes@[q] == old(self).notes@[q]);
                        }
                    }
                    assert(entries_abs(self.notes@) =~= m1.notes);
                    assert(self.abs() == m1);
                    assert(vels(m1.notes) =~= vels(m0.notes).update(i as int, velocity as int));
                    assert(crate::allocation::out_counts(m1.notes) =~= crate::allocation::out_counts(
                        m0.notes,
                    ));
                    assert forall|q: int| 0 <= q < m1.notes.len() implies entry_wf(
                        #[trigger] m1.notes[q],
                    ) by {
                        assert(entry_wf(m0.notes[q]));
                    }
                    assert(keys_unique(m1.notes));
                    assert(crate::allocation::wf_abs(m1));
                    assert(self.consistent());
                }
                let res = self.adjust();
                proof {
                    assert(final(self).abs() == adjust_abs(m1));
                    assert(on_call_count(m0, note, channel, velocity) == adjust_call_count(m1));
                }
                res
            }
            None => {
                proof {
                    assert forall|q: int| 0 <= q < m0.notes.len() implies (
                    #[trigger] m0.notes[q]).note <= 127 && m0.notes[q].channel <= 15 by {
                        assert(entry_wf(m0.notes[q]));
                    }
                    lemma_table_size(m0.notes);
                    assert forall|q: int| 0 <= q < vels(m0.notes).len() implies 1 <= #[trigger] vels(
                        m0.notes,
                    )[q] <= 127 by {
                        assert(entry_wf(m0.notes[q]));
                    }
                    lemma_sum_bounds(vels(m0.notes), 1, 127);
                }
                let outputs: VecDeque<O> = match self.unused.pop() {
                    Some(q) => q,
                    None => VecDeque::with_capacity(self.num_outputs),
                };
                proof {
                    assert(outputs@.len() == 0);
                    if old(self).unused@.len() > 0 {
                        assert(self.unused@ =~= old(self).unused@.drop_last());
                    } else {
                        assert(self.unused@ =~= old(self).unused@);
                    }
                }
                let entry = NoteEntry { note, channel, velocity, target_allocation: 0, outputs };
                self.notes.push(entry);
                self.total_velocity = self.total_velocity + velocity as usize;
                let ghost m1 = MpAbs {
                    notes: m0.notes.push(crate::allocation::fresh_entry(note, channel, velocity)),
                    total_velocity: m0.total_velocity + velocity as int,
                    ..m0
                };
                proof {
                    assert(hists(entry.outputs@) =~= Seq::<Seq<SinkEvent>>::empty());
                    assert forall|q: int| 0 <= q < self.notes@.len() implies #[trigger] entries_abs(
                        self.notes@,
                    )[q] == m1.notes[q] by {
                        assert(entries_abs(self.notes@)[q] == self.notes@[q].abs());
                        if q < m0.notes.len() {
                            assert(self.notes@[q] == old(self).notes@[q]);
                        } else {
                            assert(self.notes@[q] == entry);
                        }
                    }
                    assert(entries_abs(self.notes@) =~= m1.notes);
                    assert(self.abs() == m1);
                    assert(vels(m1.notes) =~= vels(m0.notes).push(velocity as int));
                    crate::allocation::lemma_sum_push(vels(m0.notes), velocity as int);
                    assert(crate::allocation::out_counts(m1.notes) =~= crate::allocation::out_counts(
                        m0.notes,
                    ).push(0));
                    crate::allocation::lemma_sum_push(crate::allocation::out_counts(m0.notes), 0);
                    assert forall|q: int| 0 <= q < m1.notes.len() implies entry_wf(
                        #[trigger] m1.notes[q],
                    ) by {
                        if q < m0.notes.len() {
                            assert(entry_wf(m0.notes[q]));
                        }
                    }
                    assert forall|q: int, q2: int| 0 <= q < q2 < m1.notes.len() implies !(
                    (#[trigger] m1.notes[q]).note == (#[trigger] m1.notes[q2]).note
                        && m1.notes[q].channel == m1.notes[q2].channel) by {
                        if q2 == m1.notes.len() - 1 {
                            assert(!has_key(m0.notes, note, channel));
                            assert(!(m0.notes[q].note == note && m0.notes[q].channel == channel));
                        }
                    }
                    assert(crate::allocation::wf_abs(m1));
                    assert(self.consistent());
                }
                let res = self.adjust();
                proof {
                    assert(final(self).abs() == adjust_abs(m1));
                    assert(on_call_count(m0, note, channel, velocity) == adjust_call_count(m1));
                }
                res
            }
        }
    }

    /// Stop `(note, channel)` if it is sounding: the note leaves the
    /// table, each endpoint it held is told to stop it and joins the
    /// idle queue in assignment order, the emptied queue is recycled,
    /// and the remaining notes are rebalanced. An absent key is a
    /// successful no-op.
    fn off(&mut self, note: Note, channel: Channel) -> (r: Result<(), O::Error>)
        ensures
            final(self).abs() == off_abs(old(self).abs(), note, channel),
            final(self).well_formed(),
            !has_key(old(self).abs().notes, note, channel) ==> r is Ok && final(self).unused@
                == old(self).unused@,
            final(self).unused@.len() == old(self).unused@.len() + (if has_key(
                old(self).abs().notes,
                note,
                channel,
            ) {
                1int
            } else {
                0int
            }),
            final(self).outcomes@.take(old(self).outcomes@.len() as int) == old(self).outcomes@,
            final(self).outcomes@.len() == old(self).outcomes@.len() + off_call_count(
                old(self).abs(),
                note,
                channel,
            ),
            (match first_error(final(self).outcomes@.skip(old(self).outcomes@.len() as int)) {
                Some(e) => r == Err::<(), O::Error>(e),
                None => r is Ok,
            }),
    {
        self.received = Ghost(self.received@.push(SinkEvent::Off { note, channel }));
        let ghost m0 = self.abs();
        let ghost r0 = self.outcomes@;
        match self.find_note(note, channel) {
            None => {
                proof {
                    assert(self.outcomes@.take(r0.len() as int) =~= r0);
                    assert(self.outcomes@.skip(r0.len() as int)
                        =~= Seq::<Option<O::Error>>::empty());
                    assert(first_error(Seq::<Option<O::Error>>::empty()) == None::<O::Error>);
                }
                Ok(())
            },
            Some(i) => {
                proof {
                    lemma_key_index(m0.notes, note, channel, i as int);
                    assert(entry_wf(m0.notes[i as int]));
                    assert forall|q: int| 0 <= q < vels(m0.notes).len() implies 1 <= #[trigger] vels(
                        m0.notes,
                    )[q] <= 127 by {
                        assert(entry_wf(m0.notes[q]));
                    }
                    lemma_sum_element_le(vels(m0.notes), i as int);
                    crate::allocation::lemma_sum_remove(vels(m0.notes), i as int);
                    crate::allocation::lemma_sum_remove(
                        crate::allocation::out_counts(m0.notes),
                        i as int,
                    );
                }
                let mut entry = self.notes.remove(i);
                self.total_velocity = self.total_velocity - entry.velocity as usize;
                let drain_err = self.drain_entry(&mut entry);
                let ghost after_drain = self.outcomes@;
                self.unused.push(entry.outputs);
                let ghost e0 = m0.notes[i as int];
                let ghost m1 = MpAbs {
                    notes: m0.notes.remove(i as int),
                    unalloc: m0.unalloc + offs_to(e0.outputs, e0.note, e0.channel),
                    total_velocity: m0.total_velocity - e0.velocity,
                    ..m0
                };
                proof {
                    assert forall|q: int| 0 <= q < self.notes@.len() implies #[trigger] entries_abs(
                        self.notes@,
                    )[q] == m1.notes[q] by {
                        assert(entries_abs(self.notes@)[q] == self.notes@[q].abs());
                        if q < i {
                            assert(self.notes@[q] == old(self).notes@[q]);
                        } else {
                            assert(self.notes@[q] == old(self).notes@[q + 1]);
                        }
                    }
                    assert(entries_abs(self.notes@) =~= m1.notes);
                    assert(hists(entry.outputs@).len() == entry.outputs@.len());
                    assert(hists(old(self).notes@[i as int].outputs@) == e0.outputs);
                    assert(self.abs() == m1);
                    assert(vels(m1.notes) =~= vels(m0.notes).remove(i as int));
                    assert(crate::allocation::out_counts(m1.notes)
                        =~= crate::allocation::out_counts(m0.notes).remove(i as int));
                    assert forall|q: int| 0 <= q < m1.notes.len() implies entry_wf(
                        #[trigger] m1.notes[q],
                    ) by {
                        if q < i {
                            assert(m1.notes[q] == m0.notes[q]);
                            assert(entry_wf(m0.notes[q]));
                        } else {
                            assert(m1.notes[q] == m0.notes[q + 1]);
                            assert(entry_wf(m0.notes[q + 1]));
                        }
                    }
                    assert forall|q: int, q2: int| 0 <= q < q2 < m1.notes.len() implies !(
                    (#[trigger] m1.notes[q]).note == (#[trigger] m1.notes[q2]).note
                        && m1.notes[q].channel == m1.notes[q2].channel) by {
                        let a: int = if q < i {
                            q
                        } else {
                            q + 1
                        };
                        let b: int = if q2 < i {
                            q2
                        } else {
                            q2 + 1
                        };
                        assert(m1.notes[q] == m0.notes[a]);
                        assert(m1.notes[q2] == m0.notes[b]);
                        assert(!(m0.notes[a].note == m0.notes[b].note && m0.notes[a].channel
                            == m0.notes[b].channel));
                    }
                    assert forall|q: int| 0 <= q < m1.unalloc.len() implies idle_wf(
                        #[trigger] m1.unalloc[q],
                    ) by {
                        if q >= m0.unalloc.len() {
                            let qq = q - m0.unalloc.len();
                            assert(m1.unalloc[q] == offs_to(e0.outputs, e0.note, e0.channel)[qq]);
                            assert(m1.unalloc[q] == e0.outputs[qq].push(
                                SinkEvent::Off { note: e0.note, channel: e0.channel },
                            ));
                            lemma_hist_push_off(e0.outputs[qq], e0.note, e0.channel);
                        }
                    }
                    assert(crate::allocation::wf_abs(m1));
                    assert(self.consistent());
                }
                let res = self.adjust();
                proof {
                    assert(final(self).abs() == adjust_abs(m1));
                    assert(off_call_count(m0, note, channel) == e0.outputs.len()
                        + adjust_call_count(m1));
                    assert(after_drain.take(r0.len() as int) == r0);
                    assert(after_drain.len() == r0.len() + e0.outputs.len());
                    assert(self.outcomes@.take(after_drain.len() as int) == after_drain);
                    assert(self.outcomes@.len() == after_drain.len() + adjust_call_count(m1));
                    lemma_first_error_concat(
                        after_drain.skip(r0.len() as int),
                        self.outcomes@.skip(after_drain.len() as int),
                    );
                    assert forall|j: int| 0 <= j < after_drain.len() implies self.outcomes@[j]
                        == after_drain[j] by {
                        assert(self.outcomes@.take(after_drain.len() as int)[j]
                            == self.outcomes@[j]);
                    }
                    assert forall|j: int| 0 <= j < r0.len() implies self.outcomes@[j] == r0[j] by {
                        assert(after_drain.take(r0.len() as int)[j] == after_drain[j]);
                    }
                    assert(self.outcomes@.skip(r0.len() as int) =~= after_drain.skip(
                        r0.len() as int,
                    ) + self.outcomes@.skip(after_drain.len() as int));
                    assert(self.outcomes@.take(r0.len() as int) =~= r0);
                }
                match drain_err {
                    Some(e) => Err(e),
                    None => res,
                }
            }
        }
    }

    /// Stop everything: each sounding note is stopped on every endpoint
    /// it holds, table order first, the emptied queues are recycled, and
    /// the table ends empty. Silencing an already-silent allocator makes
    /// no endpoint calls and cannot fail, so `silence` is idempotent.
    fn silence(&mut self) -> (r: Result<(), O::Error>)
        ensures
            final(self).abs() == silence_abs(old(self).abs()),
            final(self).well_formed(),
            old(self).abs().notes.len() == 0 ==> r is Ok && final(self).abs() == old(self).abs()
                && final(self).unused@ == old(self).unused@,
            final(self).unused@.len() == old(self).unused@.len() + old(self).abs().notes.len(),
            final(self).outcomes@.take(old(self).outcomes@.len() as int) == old(self).outcomes@,
            final(self).outcomes@.len() == old(self).outcomes@.len() + silence_call_count(
                old(self).abs(),
            ),
            (match first_error(final(self).outcomes@.skip(old(self).outcomes@.len() as int)) {
                Some(e) => r == Err::<(), O::Error>(e),
                None => r is Ok,
            }),
    {
        self.received = Ghost(self.received@.push(SinkEvent::Silence));
        let ghost m0 = self.abs();
        let ghost r0 = self.outcomes@;
        let ghost mut k: int = 0;
        let mut first_err: Option<O::Error> = None;
        proof {
            assert(drained(m0.notes.take(0)) =~= Seq::<Seq<SinkEvent>>::empty());
            assert(hists(self.unallocated@) =~= m0.unalloc + drained(m0.notes.take(0)));
            assert(vels(m0.notes).skip(0) =~= vels(m0.notes));
            assert(self.outcomes@.take(r0.len() as int) =~= r0);
            assert(self.outcomes@.skip(r0.len() as int) =~= Seq::<Option<O::Error>>::empty());
            assert(first_error(Seq::<Option<O::Error>>::empty()) == None::<O::Error>);
        }
        while self.notes.len() > 0
            invariant
                old(self).consistent(),
                m0 == old(self).abs(),
                0 <= k <= m0.notes.len(),
                k == m0.notes.len() - self.notes@.len(),
                entries_abs(self.notes@) == m0.notes.skip(k),
                hists(self.unallocated@) == m0.unalloc + drained(m0.notes.take(k)),
                self.total_velocity as int == sum_of(vels(m0.notes).skip(k)),
                forall|i: int, j: int|
                    0 <= i < self.notes@.len() && 0 <= j < self.notes@[i].outputs@.len()
                        ==> (#[trigger] self.notes@[i].outputs@[j]).inv(),
                forall|j: int|
                    0 <= j < self.unallocated@.len() ==> (#[trigger] self.unallocated@[j]).inv(),
                self.spares_empty(),
                self.received@ == old(self).received@.push(SinkEvent::Silence),
                self.num_outputs == old(self).num_outputs,
                self.max_allocation == old(self).max_allocation,
                m0.notes.len() == 0 ==> first_err is None,
                self.unused@.len() == old(self).unused@.len() + k,
                m0.notes.len() == 0 ==> self.unused@ == old(self).unused@,
                r0 == old(self).outcomes@,
                self.outcomes@.take(r0.len() as int) == r0,
                self.outcomes@.len() == r0.len() + drained(m0.notes.take(k)).len(),
                first_err == first_error(self.outcomes@.skip(r0.len() as int)),
            decreases self.notes@.len(),
        {
            let ghost pre_notes = self.notes@;
            let ghost e0 = m0.notes[k];
            proof {
                assert(entries_abs(pre_notes)[0] == pre_notes[0].abs());
                assert(m0.notes.skip(k)[0] == e0);
                assert(pre_notes[0].abs() == e0);
                assert(entry_wf(e0));
                lemma_sum_skip_step(vels(m0.notes), k);
                assert forall|q: int| 0 <= q < vels(m0.notes).skip(k + 1).len() implies 0
                    <= #[trigger] vels(m0.notes).skip(k + 1)[q] by {
                    assert(vels(m0.notes).skip(k + 1)[q] == vels(m0.notes)[k + 1 + q]);
                    assert(entry_wf(m0.notes[k + 1 + q]));
                }
                crate::allocation::lemma_sum_nonneg(vels(m0.notes).skip(k + 1));
                assert(vels(m0.notes)[k] == e0.velocity as int);
            }
            let mut entry = self.notes.remove(0);
            self.total_velocity = self.total_velocity - entry.velocity as usize;
            proof {
                assert(hists(entry.outputs@) == e0.outputs);
                assert(entry.note == e0.note);
                assert(entry.channel == e0.channel);
            }
            let ghost pre_outcomes = self.outcomes@;
            let drain_err = self.drain_entry(&mut entry);
            if let Some(e) = drain_err {
                if first_err.is_none() {
                    first_err = Some(e);
                }
            }
            self.unused.push(entry.outputs);
            proof {
                assert forall|q: int| 0 <= q < self.notes@.len() implies #[trigger] entries_abs(
                    self.notes@,
                )[q] == m0.notes.skip(k + 1)[q] by {
                    assert(entries_abs(self.notes@)[q] == self.notes@[q].abs());
                    assert(self.notes@[q] == pre_notes.remove(0)[q]);
                    assert(pre_notes.remove(0)[q] == pre_notes[q + 1]);
                    assert(entries_abs(pre_notes)[q + 1] == pre_notes[q + 1].abs());
                    assert(entries_abs(pre_notes)[q + 1] == m0.notes.skip(k)[q + 1]);
                    assert(m0.notes.skip(k)[q + 1] == m0.notes[k + 1 + q]);
                    assert(m0.notes.skip(k + 1)[q] == m0.notes[k + 1 + q]);
                }
                assert(entries_abs(self.notes@) =~= m0.notes.skip(k + 1));
                assert(m0.notes.take(k + 1).drop_last() =~= m0.notes.take(k));
                assert(m0.notes.take(k + 1).last() == e0);
                assert(drained(m0.notes.take(k + 1)) == drained(m0.notes.take(k)) + offs_to(
                    e0.outputs,
                    e0.note,
                    e0.channel,
                ));
                assert(hists(self.unallocated@) =~= m0.unalloc + drained(m0.notes.take(k + 1)));
                assert(pre_outcomes.take(r0.len() as int) == r0);
                assert(self.outcomes@.take(pre_outcomes.len() as int) == pre_outcomes);
                assert(self.outcomes@.len() == pre_outcomes.len() + e0.outputs.len());
                lemma_first_error_concat(
                    pre_outcomes.skip(r0.len() as int),
                    self.outcomes@.skip(pre_outcomes.len() as int),
                );
                assert forall|j: int| 0 <= j < pre_outcomes.len() implies self.outcomes@[j]
                    == pre_outcomes[j] by {
                    assert(self.outcomes@.take(pre_outcomes.len() as int)[j]
                        == self.outcomes@[j]);
                }
                assert forall|j: int| 0 <= j < r0.len() implies self.outcomes@[j] == r0[j] by {
                    assert(pre_outcomes.take(r0.len() as int)[j] == pre_outcomes[j]);
                }
                assert(self.outcomes@.skip(r0.len() as int) =~= pre_outcomes.skip(
                    r0.len() as int,
                ) + self.outcomes@.skip(pre_outcomes.len() as int));
                assert(self.outcomes@.take(r0.len() as int) =~= r0);
                assert(first_err == first_error(self.outcomes@.skip(r0.len() as int)));
                k = k + 1;
            }
        }
        proof {
            assert(k == m0.notes.len());
            assert(m0.notes.take(k) =~= m0.notes);
            assert(entries_abs(self.notes@) =~= Seq::<NoteAbs>::empty());
            assert(vels(m0.notes).skip(k) =~= Seq::<int>::empty());
            assert(self.total_velocity as int == 0);
            assert(self.abs().notes == silence_abs(m0).notes);
            assert(self.abs().unalloc == silence_abs(m0).unalloc);
            assert(self.abs() == silence_abs(m0));
            assert(self.outcomes@.len() == r0.len() + silence_call_count(m0));
            assert forall|q: int| 0 <= q < m0.notes.len() implies entry_wf(
                #[trigger] m0.notes[q],
            ) by {}
            lemma_drained_props(m0.notes);
            assert(crate::allocation::out_counts(self.abs().notes) =~= Seq::<int>::empty());
            assert(vels(self.abs().notes) =~= Seq::<int>::empty());
            assert(crate::allocation::wf_abs(self.abs()));
            assert(self.well_formed());
            if m0.notes.len() == 0 {
                assert(m0.unalloc + drained(m0.notes) =~= m0.unalloc);
                assert(vels(m0.notes) =~= Seq::<int>::empty());
                assert(m0.total_velocity == 0);
                assert(self.abs() == m0);
            }
        }
        match first_err {
            None => Ok(()),
            Some(e) => Err(e),
        }
    }
}

} // verus!
