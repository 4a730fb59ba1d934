//! The mathematical model of the allocator.
//!
//! Everything the allocator does is described here over ghost state: a
//! note table in insertion order and a pool of idle endpoints, each
//! endpoint represented by the history of commands it has received. The
//! executable code in [`crate::midiplex`] is verified to transform its
//! state exactly as the functions of this module say.

use vstd::prelude::*;

use crate::types::{hist_active, hist_ok, Channel, Note, SinkEvent, Velocity};

verus! {

/// The image of one sounding note: its key, current velocity, the sink
/// count it aims for, and the history of every endpoint assigned to it,
/// oldest assignment first.
pub struct NoteAbs {
    pub note: Note,
    pub channel: Channel,
    pub velocity: Velocity,
    pub target: int,
    pub outputs: Seq<Seq<SinkEvent>>,
}

/// The image of the whole allocator: the note table in insertion order
/// (earliest-started note first), the idle-endpoint queue (front first),
/// and the fixed configuration.
pub struct MpAbs {
    pub notes: Seq<NoteAbs>,
    pub unalloc: Seq<Seq<SinkEvent>>,
    pub num_outputs: int,
    pub total_velocity: int,
    pub max_allocation: Option<usize>,
}

// ------------------------------------------------------------------
// Sums
// ------------------------------------------------------------------

/// The sum of a sequence of integers.
pub open spec fn sum_of(s: Seq<int>) -> int
    decreases s.len(),
{
    if s.len() == 0 {
        0
    } else {
        sum_of(s.drop_last()) + s.last()
    }
}

/// The velocities of the notes, as integers.
pub open spec fn vels(ns: Seq<NoteAbs>) -> Seq<int> {
    Seq::new(ns.len(), |i: int| ns[i].velocity as int)
}

/// The per-note assigned endpoint counts.
pub open spec fn out_counts(ns: Seq<NoteAbs>) -> Seq<int> {
    Seq::new(ns.len(), |i: int| ns[i].outputs.len() as int)
}

/// The per-note target allocations.
pub open spec fn target_counts(ns: Seq<NoteAbs>) -> Seq<int> {
    Seq::new(ns.len(), |i: int| ns[i].target)
}

pub open spec fn sum_velocity(ns: Seq<NoteAbs>) -> int {
    sum_of(vels(ns))
}

pub open spec fn sum_outputs(ns: Seq<NoteAbs>) -> int {
    sum_of(out_counts(ns))
}

pub open spec fn sum_targets(ns: Seq<NoteAbs>) -> int {
    sum_of(target_counts(ns))
}

/// Appending an element adds it to the sum.
pub proof fn lemma_sum_push(s: Seq<int>, x: int)
    ensures
        sum_of(s.push(x)) == sum_of(s) + x,
{
    assert(s.push(x).drop_last() =~= s);
}

/// Concatenation adds the sums.
pub proof fn lemma_sum_concat(a: Seq<int>, b: Seq<int>)
    ensures
        sum_of(a + b) == sum_of(a) + sum_of(b),
    decreases b.len(),
{
    if b.len() == 0 {
        assert(a + b =~= a);
    } else {
        assert((a + b).drop_last() =~= a + b.drop_last());
        lemma_sum_concat(a, b.drop_last());
    }
}

/// Replacing one element shifts the sum by the difference.
pub proof fn lemma_sum_update(s: Seq<int>, i: int, x: int)
    requires
        0 <= i < s.len(),
    ensures
        sum_of(s.update(i, x)) == sum_of(s) - s[i] + x,
    decreases s.len(),
{
    if i == s.len() - 1 {
        assert(s.update(i, x).drop_last() =~= s.drop_last());
    } else {
        assert(s.update(i, x).drop_last() =~= s.drop_last().update(i, x));
        lemma_sum_update(s.drop_last(), i, x);
    }
}

/// Elementwise bounds scale to the sum.
pub proof fn lemma_sum_bounds(s: Seq<int>, lo: int, hi: int)
    requires
        forall|i: int| 0 <= i < s.len() ==> lo <= #[trigger] s[i] <= hi,
    ensures
        lo * s.len() <= sum_of(s) <= hi * s.len(),
    decreases s.len(),
{
    if s.len() > 0 {
        lemma_sum_bounds(s.drop_last(), lo, hi);
        assert(lo * s.len() == lo * (s.len() - 1) + lo) by (nonlinear_arith);
        assert(hi * s.len() == hi * (s.len() - 1) + hi) by (nonlinear_arith);
    }
}

/// In a non-negative sequence, no element exceeds the sum.
pub proof fn lemma_sum_element_le(s: Seq<int>, i: int)
    requires
        0 <= i < s.len(),
        forall|j: int| 0 <= j < s.len() ==> 0 <= #[trigger] s[j],
    ensures
        s[i] <= sum_of(s),
    decreases s.len(),
{
    if i == s.len() - 1 {
        lemma_sum_nonneg(s.drop_last());
    } else {
        lemma_sum_element_le(s.drop_last(), i);
    }
}

/// A sum of non-negative elements is non-negative.
pub proof fn lemma_sum_nonneg(s: Seq<int>)
    requires
        forall|j: int| 0 <= j < s.len() ==> 0 <= #[trigger] s[j],
    ensures
        0 <= sum_of(s),
    decreases s.len(),
{
    if s.len() > 0 {
        lemma_sum_nonneg(s.drop_last());
    }
}

/// Peeling one element off the front of a suffix.
pub proof fn lemma_sum_skip_step(s: Seq<int>, i: int)
    requires
        0 <= i < s.len(),
    ensures
        sum_of(s.skip(i)) == s[i] + sum_of(s.skip(i + 1)),
{
    assert(s.skip(i) =~= seq![s[i]] + s.skip(i + 1));
    lemma_sum_concat(seq![s[i]], s.skip(i + 1));
    assert(sum_of(seq![s[i]]) == s[i]) by {
        let single = seq![s[i]];
        assert(single.len() == 1);
        assert(single.last() == s[i]);
        assert(single.drop_last() =~= Seq::<int>::empty());
        assert(sum_of(single.drop_last()) == 0);
    }
}

/// The target sequence has one entry per note.
pub proof fn lemma_targets_rec_len(
    ns: Seq<NoteAbs>,
    remaining: int,
    max_allocation: Option<usize>,
    num_outputs: int,
    total_velocity: int,
)
    ensures
        targets_rec(ns, remaining, max_allocation, num_outputs, total_velocity).len() == ns.len(),
    decreases ns.len(),
{
    if ns.len() > 0 {
        let t = clamp_share(
            ideal_share(ns.last().velocity as int, max_allocation, num_outputs, total_velocity),
            remaining,
        );
        lemma_targets_rec_len(
            ns.drop_last(),
            remaining - t,
            max_allocation,
            num_outputs,
            total_velocity,
        );
    }
}

// ------------------------------------------------------------------
// The target computation
// ------------------------------------------------------------------

/// Whether the optional per-note cap, rather than the pool size, fixes
/// the scaling factor: the cap binds while aggregate demand is low.
pub open spec fn cap_binds(
    max_allocation: Option<usize>,
    num_outputs: int,
    total_velocity: int,
) -> bool {
    match max_allocation {
        Some(m) => (m as int) * total_velocity < num_outputs * 128,
        None => false,
    }
}

/// The unclamped share a note of velocity `velocity` asks for:
/// `floor(velocity * scale)` with `scale = max_allocation / 127` while the
/// cap binds and `scale = num_outputs / total_velocity` otherwise.
pub open spec fn ideal_share(
    velocity: int,
    max_allocation: Option<usize>,
    num_outputs: int,
    total_velocity: int,
) -> int {
    if cap_binds(max_allocation, num_outputs, total_velocity) {
        match max_allocation {
            Some(m) => velocity * (m as int) / 127,
            None => 0,
        }
    } else {
        velocity * num_outputs / total_velocity
    }
}

/// Lift a share to at least one endpoint, then cut it to what is left of
/// the pool; an exhausted pool overrides the lift.
pub open spec fn clamp_share(share: int, remaining: int) -> int {
    let lifted = if share < 1 {
        1
    } else {
        share
    };
    if lifted > remaining {
        remaining
    } else {
        lifted
    }
}

/// The targets of the notes, computed newest (last) first; each clamped
/// target is subtracted from `remaining` before the next-older note is
/// handled, so the oldest notes are starved first under scarcity.
pub open spec fn targets_rec(
    ns: Seq<NoteAbs>,
    remaining: int,
    max_allocation: Option<usize>,
    num_outputs: int,
    total_velocity: int,
) -> Seq<int>
    decreases ns.len(),
{
    if ns.len() == 0 {
        Seq::empty()
    } else {
        let t = clamp_share(
            ideal_share(ns.last().velocity as int, max_allocation, num_outputs, total_velocity),
            remaining,
        );
        targets_rec(
            ns.drop_last(),
            remaining - t,
            max_allocation,
            num_outputs,
            total_velocity,
        ).push(t)
    }
}

/// The target allocation of every note, given the configuration.
pub open spec fn targets(
    ns: Seq<NoteAbs>,
    max_allocation: Option<usize>,
    num_outputs: int,
    total_velocity: int,
) -> Seq<int> {
    targets_rec(ns, num_outputs, max_allocation, num_outputs, total_velocity)
}

/// Pointwise characterization of the target computation: each note's
/// target is its clamped share against what the newer notes left over,
/// every target is non-negative, and no suffix claims more than the pool.
pub proof fn lemma_targets_rec_pointwise(
    ns: Seq<NoteAbs>,
    remaining: int,
    max_allocation: Option<usize>,
    num_outputs: int,
    total_velocity: int,
)
    requires
        remaining >= 0,
    ensures
        ({
            let ts = targets_rec(ns, remaining, max_allocation, num_outputs, total_velocity);
            &&& ts.len() == ns.len()
            &&& sum_of(ts) <= remaining
            &&& forall|i: int|
                0 <= i < ns.len() ==> {
                    &&& 0 <= #[trigger] ts[i]
                    &&& sum_of(ts.skip(i)) <= remaining
                    &&& ts[i] == clamp_share(
                        ideal_share(
                            ns[i].velocity as int,
                            max_allocation,
                            num_outputs,
                            total_velocity,
                        ),
                        remaining - sum_of(ts.skip(i + 1)),
                    )
                }
        }),
    decreases ns.len(),
{
    let ts = targets_rec(ns, remaining, max_allocation, num_outputs, total_velocity);
    if ns.len() == 0 {
        assert(ts =~= Seq::<int>::empty());
    } else {
        let t = clamp_share(
            ideal_share(ns.last().velocity as int, max_allocation, num_outputs, total_velocity),
            remaining,
        );
        let rest = targets_rec(
            ns.drop_last(),
            remaining - t,
            max_allocation,
            num_outputs,
            total_velocity,
        );
        assert(0 <= t <= remaining);
        lemma_targets_rec_pointwise(
            ns.drop_last(),
            remaining - t,
            max_allocation,
            num_outputs,
            total_velocity,
        );
        lemma_sum_push(rest, t);
        assert(ts.skip(ns.len() as int) =~= Seq::<int>::empty());
        assert forall|i: int| 0 <= i < ns.len() implies {
            &&& 0 <= #[trigger] ts[i]
            &&& sum_of(ts.skip(i)) <= remaining
            &&& ts[i] == clamp_share(
                ideal_share(
                    ns[i].velocity as int,
                    max_allocation,
                    num_outputs,
                    total_velocity,
                ),
                remaining - sum_of(ts.skip(i + 1)),
            )
        } by {
            if i < ns.len() - 1 {
                assert(ts[i] == rest[i]);
                assert(ns.drop_last()[i] == ns[i]);
                assert(0 <= rest[i]);
                assert(sum_of(rest.skip(i)) <= remaining - t);
                assert(rest[i] == clamp_share(
                    ideal_share(
                        ns.drop_last()[i].velocity as int,
                        max_allocation,
                        num_outputs,
                        total_velocity,
                    ),
                    (remaining - t) - sum_of(rest.skip(i + 1)),
                ));
                assert(ts.skip(i) =~= rest.skip(i).push(t));
                assert(ts.skip(i + 1) =~= rest.skip(i + 1).push(t));
                lemma_sum_push(rest.skip(i), t);
                lemma_sum_push(rest.skip(i + 1), t);
            } else {
                assert(i == ns.len() - 1);
                assert(ts[i] == t);
                assert(ts.skip(i + 1) =~= Seq::<int>::empty());
                assert(ts.skip(i) =~= seq![t]);
                lemma_sum_skip_step(ts, i);
            }
        }
    }
}

/// The allocation never over-commits: the targets assigned to all notes
/// sum to at most the size of the endpoint pool.
pub proof fn lemma_allocation_sum(
    ns: Seq<NoteAbs>,
    max_allocation: Option<usize>,
    num_outputs: int,
    total_velocity: int,
)
    requires
        num_outputs >= 0,
    ensures
        sum_of(targets(ns, max_allocation, num_outputs, total_velocity)) <= num_outputs,
        forall|i: int|
            0 <= i < ns.len() ==> 0 <= #[trigger] targets(
                ns,
                max_allocation,
                num_outputs,
                total_velocity,
            )[i],
        targets(ns, max_allocation, num_outputs, total_velocity).len() == ns.len(),
{
    lemma_targets_rec_pointwise(ns, num_outputs, max_allocation, num_outputs, total_velocity);
}

/// Each note's share lifted to the audibility floor of one endpoint.
pub open spec fn lifted_share(
    velocity: int,
    max_allocation: Option<usize>,
    num_outputs: int,
    total_velocity: int,
) -> int {
    let share = ideal_share(velocity, max_allocation, num_outputs, total_velocity);
    if share < 1 {
        1
    } else {
        share
    }
}

/// The lifted shares of all notes.
pub open spec fn lifted_shares(
    ns: Seq<NoteAbs>,
    max_allocation: Option<usize>,
    num_outputs: int,
    total_velocity: int,
) -> Seq<int> {
    Seq::new(
        ns.len(),
        |i: int| lifted_share(ns[i].velocity as int, max_allocation, num_outputs, total_velocity),
    )
}

/// Audibility: while the endpoint pool covers every note's lifted share,
/// no note is sacrificed — each target equals the lifted share and in
/// particular is at least one.
pub proof fn lemma_audibility_rec(
    ns: Seq<NoteAbs>,
    remaining: int,
    max_allocation: Option<usize>,
    num_outputs: int,
    total_velocity: int,
)
    requires
        sum_of(lifted_shares(ns, max_allocation, num_outputs, total_velocity)) <= remaining,
    ensures
        ({
            let ts = targets_rec(ns, remaining, max_allocation, num_outputs, total_velocity);
            forall|i: int|
                0 <= i < ns.len() ==> #[trigger] ts[i] == lifted_share(
                    ns[i].velocity as int,
                    max_allocation,
                    num_outputs,
                    total_velocity,
                ) && ts[i] >= 1
        }),
    decreases ns.len(),
{
    let ls = lifted_shares(ns, max_allocation, num_outputs, total_velocity);
    let ts = targets_rec(ns, remaining, max_allocation, num_outputs, total_velocity);
    lemma_targets_rec_len(ns, remaining, max_allocation, num_outputs, total_velocity);
    if ns.len() > 0 {
        let l_last = lifted_share(
            ns.last().velocity as int,
            max_allocation,
            num_outputs,
            total_velocity,
        );
        assert(ls.drop_last() =~= lifted_shares(
            ns.drop_last(),
            max_allocation,
            num_outputs,
            total_velocity,
        ));
        assert(sum_of(ls) == sum_of(ls.drop_last()) + l_last);
        assert(forall|i: int| 0 <= i < ls.len() ==> 1 <= #[trigger] ls[i]);
        lemma_sum_nonneg(ls.drop_last());
        // hence l_last <= remaining, so the pool covers the newest note
        let t = clamp_share(
            ideal_share(ns.last().velocity as int, max_allocation, num_outputs, total_velocity),
            remaining,
        );
        assert(t == l_last);
        let rest = targets_rec(
            ns.drop_last(),
            remaining - t,
            max_allocation,
            num_outputs,
            total_velocity,
        );
        lemma_targets_rec_len(
            ns.drop_last(),
            remaining - t,
            max_allocation,
            num_outputs,
            total_velocity,
        );
        lemma_audibility_rec(
            ns.drop_last(),
            remaining - t,
            max_allocation,
            num_outputs,
            total_velocity,
        );
        assert forall|i: int| 0 <= i < ns.len() implies #[trigger] ts[i] == lifted_share(
            ns[i].velocity as int,
            max_allocation,
            num_outputs,
            total_velocity,
        ) && ts[i] >= 1 by {
            if i < ns.len() - 1 {
                assert(ns.drop_last()[i] == ns[i]);
            }
        }
    }
}

// ------------------------------------------------------------------
// Keys and well-formedness
// ------------------------------------------------------------------

/// Whether `(note, channel)` is sounding.
pub open spec fn has_key(ns: Seq<NoteAbs>, note: Note, channel: Channel) -> bool {
    exists|i: int| 0 <= i < ns.len() && ns[i].note == note && ns[i].channel == channel
}

/// The position of `(note, channel)` in the table; meaningful only when
/// `has_key` holds and the keys are unique.
pub open spec fn key_index(ns: Seq<NoteAbs>, note: Note, channel: Channel) -> int {
    choose|i: int| 0 <= i < ns.len() && ns[i].note == note && ns[i].channel == channel
}

/// No two entries share a `(note, channel)` key.
pub open spec fn keys_unique(ns: Seq<NoteAbs>) -> bool {
    forall|i: int, j: int|
        0 <= i < j < ns.len() ==> !(#[trigger] ns[i].note == #[trigger] ns[j].note
            && ns[i].channel == ns[j].channel)
}

/// One entry is internally consistent: its key and velocity are in range
/// and every endpoint assigned to it has a valid history that currently
/// sounds exactly this note.
pub open spec fn entry_wf(e: NoteAbs) -> bool {
    &&& e.note <= 127
    &&& e.channel <= 15
    &&& 1 <= e.velocity <= 127
    &&& 0 <= e.target
    &&& forall|j: int|
        0 <= j < e.outputs.len() ==> hist_ok(#[trigger] e.outputs[j]) && hist_active(e.outputs[j])
            == Some((e.note, e.channel))
}

/// An idle endpoint has a valid history and sounds nothing.
pub open spec fn idle_wf(h: Seq<SinkEvent>) -> bool {
    hist_ok(h) && hist_active(h) is None
}

/// The allocator's bookkeeping invariant: every entry is consistent,
/// keys are unique, the recorded velocity total is the real sum, no
/// endpoint is lost or duplicated, and idle endpoints sound nothing.
pub open spec fn wf_abs(m: MpAbs) -> bool {
    &&& forall|i: int| 0 <= i < m.notes.len() ==> entry_wf(#[trigger] m.notes[i])
    &&& keys_unique(m.notes)
    &&& m.total_velocity == sum_velocity(m.notes)
    &&& sum_outputs(m.notes) + m.unalloc.len() == m.num_outputs
    &&& forall|j: int| 0 <= j < m.unalloc.len() ==> idle_wf(#[trigger] m.unalloc[j])
    &&& m.num_outputs >= 0
}

/// The state a rebalance leaves behind: every note's target is what the
/// allocation formula says, and every note holds exactly its target.
pub open spec fn balanced(m: MpAbs) -> bool {
    let ts = targets(m.notes, m.max_allocation, m.num_outputs, m.total_velocity);
    forall|i: int|
        0 <= i < m.notes.len() ==> #[trigger] m.notes[i].target == ts[i]
            && m.notes[i].outputs.len() == ts[i]
}

// ------------------------------------------------------------------
// The rebalance (two passes over the table, newest note first)
// ------------------------------------------------------------------

/// Each history in `hs` extended by `off(note, channel)`.
pub open spec fn offs_to(hs: Seq<Seq<SinkEvent>>, note: Note, channel: Channel) -> Seq<
    Seq<SinkEvent>,
> {
    Seq::new(hs.len(), |i: int| hs[i].push(SinkEvent::Off { note, channel }))
}

/// Each history in `hs` extended by `on(note, channel, velocity)`.
pub open spec fn ons_to(
    hs: Seq<Seq<SinkEvent>>,
    note: Note,
    channel: Channel,
    velocity: Velocity,
) -> Seq<Seq<SinkEvent>> {
    Seq::new(hs.len(), |i: int| hs[i].push(SinkEvent::On { note, channel, velocity }))
}

/// `ns` with each note's target replaced by the corresponding entry of `ts`.
pub open spec fn assign_targets(ns: Seq<NoteAbs>, ts: Seq<int>) -> Seq<NoteAbs> {
    Seq::new(ns.len(), |i: int| NoteAbs { target: ts[i], ..ns[i] })
}

/// How many endpoints the shrink pass takes away from an over-allocated
/// note: the excess over its target.
pub open spec fn shrink_count(e: NoteAbs) -> int {
    if e.outputs.len() > e.target {
        e.outputs.len() - e.target
    } else {
        0
    }
}

/// The note after the shrink pass: the oldest assignments are dropped.
pub open spec fn shrink_entry(e: NoteAbs) -> NoteAbs {
    NoteAbs { outputs: e.outputs.skip(shrink_count(e)), ..e }
}

/// The endpoints the shrink pass frees from one note, each one told to
/// stop the note as it leaves.
pub open spec fn freed_of(e: NoteAbs) -> Seq<Seq<SinkEvent>> {
    offs_to(e.outputs.take(shrink_count(e)), e.note, e.channel)
}

/// All endpoints freed by the shrink pass from entries `i..`, in the
/// order they join the idle queue (the pass runs newest note first).
pub open spec fn freed_from(ns: Seq<NoteAbs>, i: int) -> Seq<Seq<SinkEvent>>
    decreases ns.len() - i,
{
    if i >= ns.len() {
        Seq::empty()
    } else {
        freed_from(ns, i + 1) + freed_of(ns[i])
    }
}

/// The whole table after the shrink pass.
pub open spec fn shrink_notes(ns: Seq<NoteAbs>) -> Seq<NoteAbs> {
    Seq::new(ns.len(), |i: int| shrink_entry(ns[i]))
}

/// How many endpoints an under-allocated note still wants.
pub open spec fn grow_need(e: NoteAbs) -> int {
    if e.target > e.outputs.len() {
        e.target - e.outputs.len()
    } else {
        0
    }
}

/// How many endpoints the grow pass actually hands a note: its need,
/// cut to what the idle queue still holds.
pub open spec fn grow_take(e: NoteAbs, pool: Seq<Seq<SinkEvent>>) -> int {
    if grow_need(e) > pool.len() {
        pool.len() as int
    } else {
        grow_need(e)
    }
}

/// The wants of entries `i..`, accumulated in processing order.
pub open spec fn needs_from(ns: Seq<NoteAbs>, i: int) -> int
    decreases ns.len() - i,
{
    if i >= ns.len() {
        0
    } else {
        needs_from(ns, i + 1) + grow_need(ns[i])
    }
}

/// The idle queue once the grow pass has served entries `i..` (the pass
/// runs newest note first, so entry `i` is served last of those).
pub open spec fn pool_from(ns: Seq<NoteAbs>, pool: Seq<Seq<SinkEvent>>, i: int) -> Seq<
    Seq<SinkEvent>,
>
    decreases ns.len() - i,
{
    if i >= ns.len() {
        pool
    } else {
        let p = pool_from(ns, pool, i + 1);
        p.skip(grow_take(ns[i], p))
    }
}

/// One note after the grow pass, `p` being the idle queue it is served
/// from: the endpoints it receives are told to start the note.
pub open spec fn grow_entry(e: NoteAbs, p: Seq<Seq<SinkEvent>>) -> NoteAbs {
    NoteAbs { outputs: e.outputs + ons_to(p.take(grow_take(e, p)), e.note, e.channel, e.velocity), ..e }
}

/// The whole table after the grow pass.
pub open spec fn grow_notes(ns: Seq<NoteAbs>, pool: Seq<Seq<SinkEvent>>) -> Seq<NoteAbs> {
    Seq::new(ns.len(), |i: int| grow_entry(ns[i], pool_from(ns, pool, i + 1)))
}

/// The rebalance: recompute every target, then run the shrink pass and
/// the grow pass, both newest note first. With no note sounding it is a
/// no-op.
pub open spec fn adjust_abs(m: MpAbs) -> MpAbs {
    if m.notes.len() == 0 {
        m
    } else {
        let ts = targets(m.notes, m.max_allocation, m.num_outputs, m.total_velocity);
        let ns1 = assign_targets(m.notes, ts);
        let ns2 = shrink_notes(ns1);
        let pool1 = m.unalloc + freed_from(ns1, 0);
        MpAbs {
            notes: grow_notes(ns2, pool1),
            unalloc: pool_from(ns2, pool1, 0),
            ..m
        }
    }
}

// ------------------------------------------------------------------
// The public operations
// ------------------------------------------------------------------

/// A note entering the table: velocity is recorded by the caller, no
/// endpoints are assigned yet.
pub open spec fn fresh_entry(note: Note, channel: Channel, velocity: Velocity) -> NoteAbs {
    NoteAbs { note, channel, velocity, target: 0, outputs: Seq::empty() }
}

/// The effect of `on(note, channel, velocity)`: a sounding note keeps its
/// place and is rebalanced only if its velocity actually changed; an
/// unseen key is appended at the end of the insertion order.
pub open spec fn on_abs(m: MpAbs, note: Note, channel: Channel, velocity: Velocity) -> MpAbs {
    if has_key(m.notes, note, channel) {
        let i = key_index(m.notes, note, channel);
        if m.notes[i].velocity == velocity {
            m
        } else {
            adjust_abs(
                MpAbs {
                    notes: m.notes.update(i, NoteAbs { velocity, ..m.notes[i] }),
                    total_velocity: m.total_velocity - m.notes[i].velocity + velocity,
                    ..m
                },
            )
        }
    } else {
        adjust_abs(
            MpAbs {
                notes: m.notes.push(fresh_entry(note, channel, velocity)),
                total_velocity: m.total_velocity + velocity,
                ..m
            },
        )
    }
}

/// The effect of `off(note, channel)`: an absent key is a no-op; a
/// sounding note leaves the table, each of its endpoints is told to stop
/// the note and joins the idle queue in assignment order, and the
/// remaining notes are rebalanced.
pub open spec fn off_abs(m: MpAbs, note: Note, channel: Channel) -> MpAbs {
    if !has_key(m.notes, note, channel) {
        m
    } else {
        let i = key_index(m.notes, note, channel);
        let e = m.notes[i];
        adjust_abs(
            MpAbs {
                notes: m.notes.remove(i),
                unalloc: m.unalloc + offs_to(e.outputs, e.note, e.channel),
                total_velocity: m.total_velocity - e.velocity,
                ..m
            },
        )
    }
}

/// The endpoints drained by `silence`, table order first, assignment
/// order within a note, each told to stop its note.
pub open spec fn drained(ns: Seq<NoteAbs>) -> Seq<Seq<SinkEvent>>
    decreases ns.len(),
{
    if ns.len() == 0 {
        Seq::empty()
    } else {
        drained(ns.drop_last()) + offs_to(ns.last().outputs, ns.last().note, ns.last().channel)
    }
}

/// The effect of `silence()`: every sounding note is stopped on every
/// endpoint it holds, the table empties, and no rebalance runs.
pub open spec fn silence_abs(m: MpAbs) -> MpAbs {
    MpAbs {
        notes: Seq::empty(),
        unalloc: m.unalloc + drained(m.notes),
        total_velocity: 0,
        ..m
    }
}

/// How many endpoint commands a rebalance of `m` issues: one `off` per
/// endpoint the shrink pass frees, one `on` per endpoint the grow pass
/// hands out.
pub open spec fn adjust_call_count(m: MpAbs) -> int {
    if m.notes.len() == 0 {
        0
    } else {
        let ts = targets(m.notes, m.max_allocation, m.num_outputs, m.total_velocity);
        let ns1 = assign_targets(m.notes, ts);
        let ns2 = shrink_notes(ns1);
        let pool1 = m.unalloc + freed_from(ns1, 0);
        freed_from(ns1, 0).len() + (pool1.len() - pool_from(ns2, pool1, 0).len())
    }
}

/// How many endpoint commands `on(note, channel, velocity)` issues: none
/// when the velocity is unchanged, otherwise whatever the triggered
/// rebalance issues.
pub open spec fn on_call_count(m: MpAbs, note: Note, channel: Channel, velocity: Velocity) -> int {
    if has_key(m.notes, note, channel) {
        let i = key_index(m.notes, note, channel);
        if m.notes[i].velocity == velocity {
            0
        } else {
            adjust_call_count(
                MpAbs {
                    notes: m.notes.update(i, NoteAbs { velocity, ..m.notes[i] }),
                    total_velocity: m.total_velocity - m.notes[i].velocity + velocity,
                    ..m
                },
            )
        }
    } else {
        adjust_call_count(
            MpAbs {
                notes: m.notes.push(fresh_entry(note, channel, velocity)),
                total_velocity: m.total_velocity + velocity,
                ..m
            },
        )
    }
}

/// How many endpoint commands `off(note, channel)` issues: one `off` per
/// endpoint the removed note held, plus the rebalance that follows; none
/// for an absent key.
pub open spec fn off_call_count(m: MpAbs, note: Note, channel: Channel) -> int {
    if !has_key(m.notes, note, channel) {
        0
    } else {
        let i = key_index(m.notes, note, channel);
        let e = m.notes[i];
        e.outputs.len() + adjust_call_count(
            MpAbs {
                notes: m.notes.remove(i),
                unalloc: m.unalloc + offs_to(e.outputs, e.note, e.channel),
                total_velocity: m.total_velocity - e.velocity,
                ..m
            },
        )
    }
}

/// How many endpoint commands `silence()` issues: one `off` per
/// assignment in the table.
pub open spec fn silence_call_count(m: MpAbs) -> int {
    drained(m.notes).len() as int
}

/// The state a freshly built allocator starts in: no note sounding, the
/// supplied endpoints idle in the supplied order.
pub open spec fn init_abs(hs: Seq<Seq<SinkEvent>>, max_allocation: Option<usize>) -> MpAbs {
    MpAbs {
        notes: Seq::empty(),
        unalloc: hs,
        num_outputs: hs.len() as int,
        total_velocity: 0,
        max_allocation,
    }
}

// ------------------------------------------------------------------
// Properties of the key table
// ------------------------------------------------------------------

/// With unique keys, any position holding `(note, channel)` is the
/// position `key_index` denotes.
pub proof fn lemma_key_index(ns: Seq<NoteAbs>, note: Note, channel: Channel, i: int)
    requires
        keys_unique(ns),
        0 <= i < ns.len(),
        ns[i].note == note,
        ns[i].channel == channel,
    ensures
        has_key(ns, note, channel),
        key_index(ns, note, channel) == i,
{
    assert(has_key(ns, note, channel));
    let j = key_index(ns, note, channel);
    assert(0 <= j < ns.len() && ns[j].note == note && ns[j].channel == channel);
    if i < j {
        assert(!(ns[i].note == ns[j].note && ns[i].channel == ns[j].channel));
    } else if j < i {
        assert(!(ns[j].note == ns[i].note && ns[j].channel == ns[i].channel));
    }
}

/// There are only 128 x 16 distinct keys, so a table with unique,
/// in-range keys has at most 2048 entries.
pub proof fn lemma_table_size(ns: Seq<NoteAbs>)
    requires
        keys_unique(ns),
        forall|i: int| 0 <= i < ns.len() ==> (#[trigger] ns[i]).note <= 127 && ns[i].channel <= 15,
    ensures
        ns.len() <= 2048,
{
    broadcast use vstd::seq_lib::seq_to_set_is_finite;

    let keys = Seq::new(ns.len(), |i: int| (ns[i].note as int) * 16 + (ns[i].channel as int));
    assert forall|i: int, j: int| 0 <= i < keys.len() && 0 <= j < keys.len() && i != j implies keys[i]
        != keys[j] by {
        if i < j {
            assert(!(ns[i].note == ns[j].note && ns[i].channel == ns[j].channel));
        } else {
            assert(!(ns[j].note == ns[i].note && ns[j].channel == ns[i].channel));
        }
    }
    assert(keys.no_duplicates());
    keys.unique_seq_to_set();
    let range = vstd::set_lib::set_int_range(0, 2048);
    vstd::set_lib::lemma_int_range(0, 2048);
    assert forall|x: int| keys.to_set().contains(x) implies range.contains(x) by {
        let i = choose|i: int| 0 <= i < keys.len() && keys[i] == x;
        assert(0 <= keys[i] < 2048);
    }
    assert(keys.to_set().subset_of(range));
    vstd::set_lib::lemma_len_subset(keys.to_set(), range);
}

/// Removing an element subtracts it from the sum.
pub proof fn lemma_sum_remove(s: Seq<int>, i: int)
    requires
        0 <= i < s.len(),
    ensures
        sum_of(s.remove(i)) == sum_of(s) - s[i],
    decreases s.len(),
{
    if i == s.len() - 1 {
        assert(s.remove(i) =~= s.drop_last());
    } else {
        assert(s.remove(i).drop_last() =~= s.drop_last().remove(i));
        lemma_sum_remove(s.drop_last(), i);
    }
}

/// What `silence` drains: one endpoint per assignment, each left valid
/// and idle once its note is stopped.
pub proof fn lemma_drained_props(ns: Seq<NoteAbs>)
    requires
        forall|k: int| 0 <= k < ns.len() ==> entry_wf(#[trigger] ns[k]),
    ensures
        drained(ns).len() == sum_outputs(ns),
        forall|k: int| 0 <= k < drained(ns).len() ==> idle_wf(#[trigger] drained(ns)[k]),
    decreases ns.len(),
{
    if ns.len() == 0 {
        assert(out_counts(ns) =~= Seq::<int>::empty());
    } else {
        assert(forall|k: int|
            0 <= k < ns.drop_last().len() ==> entry_wf(#[trigger] ns.drop_last()[k]));
        lemma_drained_props(ns.drop_last());
        assert(out_counts(ns).drop_last() =~= out_counts(ns.drop_last()));
        let e = ns.last();
        let fr = offs_to(e.outputs, e.note, e.channel);
        assert forall|k: int| 0 <= k < fr.len() implies idle_wf(#[trigger] fr[k]) by {
            assert(fr[k] == e.outputs[k].push(SinkEvent::Off { note: e.note, channel: e.channel }));
            assert(entry_wf(e));
            crate::types::lemma_hist_push_off(e.outputs[k], e.note, e.channel);
        }
        assert forall|k: int| 0 <= k < drained(ns).len() implies idle_wf(
            #[trigger] drained(ns)[k],
        ) by {
            if k < drained(ns.drop_last()).len() {
                assert(drained(ns)[k] == drained(ns.drop_last())[k]);
            } else {
                assert(drained(ns)[k] == fr[k - drained(ns.drop_last()).len()]);
            }
        }
    }
}

// ------------------------------------------------------------------
// Properties of the rebalance
// ------------------------------------------------------------------

/// Pointwise subtraction carries through the sum.
pub proof fn lemma_sum_sub(a: Seq<int>, b: Seq<int>, c: Seq<int>)
    requires
        a.len() == c.len(),
        b.len() == c.len(),
        forall|i: int| 0 <= i < c.len() ==> #[trigger] c[i] == a[i] - b[i],
    ensures
        sum_of(c) == sum_of(a) - sum_of(b),
    decreases c.len(),
{
    if c.len() > 0 {
        lemma_sum_sub(a.drop_last(), b.drop_last(), c.drop_last());
    }
}

/// The endpoints the shrink pass frees: as many as the entries' excesses
/// say, and each one valid and idle once its note is stopped.
pub proof fn lemma_freed_from_props(ns: Seq<NoteAbs>, i: int)
    requires
        forall|k: int| 0 <= k < ns.len() ==> entry_wf(#[trigger] ns[k]),
        0 <= i <= ns.len(),
    ensures
        freed_from(ns, i).len() == sum_of(
            Seq::new(ns.len(), |k: int| shrink_count(ns[k])).skip(i),
        ),
        forall|k: int| 0 <= k < freed_from(ns, i).len() ==> idle_wf(#[trigger] freed_from(ns, i)[k]),
    decreases ns.len() - i,
{
    let scs = Seq::new(ns.len(), |k: int| shrink_count(ns[k]));
    if i == ns.len() {
        assert(scs.skip(i) =~= Seq::<int>::empty());
    } else {
        lemma_freed_from_props(ns, i + 1);
        lemma_sum_skip_step(scs, i);
        let e = ns[i];
        let fr = freed_of(e);
        assert(fr.len() == shrink_count(e));
        assert forall|k: int| 0 <= k < fr.len() implies idle_wf(#[trigger] fr[k]) by {
            assert(fr[k] == e.outputs.take(shrink_count(e))[k].push(
                SinkEvent::Off { note: e.note, channel: e.channel },
            ));
            assert(e.outputs.take(shrink_count(e))[k] == e.outputs[k]);
            crate::types::lemma_hist_push_off(e.outputs[k], e.note, e.channel);
        }
        assert forall|k: int| 0 <= k < freed_from(ns, i).len() implies idle_wf(
            #[trigger] freed_from(ns, i)[k],
        ) by {
            if k < freed_from(ns, i + 1).len() {
                assert(freed_from(ns, i)[k] == freed_from(ns, i + 1)[k]);
            } else {
                assert(freed_from(ns, i)[k] == fr[k - freed_from(ns, i + 1).len()]);
            }
        }
    }
}

/// The grow pass only ever takes endpoints off the front of the idle
/// queue, so what is left is a suffix of it.
pub proof fn lemma_pool_from_is_suffix(ns: Seq<NoteAbs>, pool: Seq<Seq<SinkEvent>>, i: int)
    requires
        0 <= i,
    ensures
        pool_from(ns, pool, i).len() <= pool.len(),
        pool_from(ns, pool, i) == pool.skip(pool.len() - pool_from(ns, pool, i).len()),
    decreases ns.len() - i,
{
    if i >= ns.len() {
        assert(pool.skip(0) =~= pool);
    } else {
        lemma_pool_from_is_suffix(ns, pool, i + 1);
        let p = pool_from(ns, pool, i + 1);
        let k = pool.len() - p.len();
        let d = grow_take(ns[i], p);
        assert(p.skip(d) =~= pool.skip(k + d));
    }
}

/// Accumulated wants are never negative.
pub proof fn lemma_needs_from_nonneg(ns: Seq<NoteAbs>, i: int)
    requires
        0 <= i,
    ensures
        needs_from(ns, i) >= 0,
    decreases ns.len() - i,
{
    if i < ns.len() {
        lemma_needs_from_nonneg(ns, i + 1);
    }
}

/// A suffix never wants more than the whole table.
pub proof fn lemma_needs_from_le(ns: Seq<NoteAbs>, i: int)
    requires
        0 <= i <= ns.len(),
    ensures
        needs_from(ns, i) <= needs_from(ns, 0),
    decreases i,
{
    if i > 0 {
        lemma_needs_from_le(ns, i - 1);
    }
}

/// The accumulated want is the sum of the per-note wants.
pub proof fn lemma_needs_from_sum(ns: Seq<NoteAbs>, i: int)
    requires
        0 <= i <= ns.len(),
    ensures
        needs_from(ns, i) == sum_of(Seq::new(ns.len(), |k: int| grow_need(ns[k])).skip(i)),
    decreases ns.len() - i,
{
    let gns = Seq::new(ns.len(), |k: int| grow_need(ns[k]));
    if i == ns.len() {
        assert(gns.skip(i) =~= Seq::<int>::empty());
    } else {
        lemma_needs_from_sum(ns, i + 1);
        lemma_sum_skip_step(gns, i);
    }
}

/// While the idle queue covers the total want, the grow pass serves
/// every note its full want.
pub proof fn lemma_grow_supply(ns: Seq<NoteAbs>, pool: Seq<Seq<SinkEvent>>, i: int)
    requires
        needs_from(ns, 0) <= pool.len(),
        0 <= i <= ns.len(),
    ensures
        pool_from(ns, pool, i).len() == pool.len() - needs_from(ns, i),
        forall|j: int|
            i <= j < ns.len() ==> #[trigger] grow_take(ns[j], pool_from(ns, pool, j + 1))
                == grow_need(ns[j]),
    decreases ns.len() - i,
{
    if i < ns.len() {
        lemma_grow_supply(ns, pool, i + 1);
        let p = pool_from(ns, pool, i + 1);
        lemma_needs_from_le(ns, i);
        lemma_needs_from_nonneg(ns, i + 1);
    }
}

/// The targets read nothing of a note but its velocity.
pub proof fn lemma_targets_rec_congruence(
    a: Seq<NoteAbs>,
    b: Seq<NoteAbs>,
    remaining: int,
    max_allocation: Option<usize>,
    num_outputs: int,
    total_velocity: int,
)
    requires
        a.len() == b.len(),
        forall|i: int| 0 <= i < a.len() ==> #[trigger] a[i].velocity == b[i].velocity,
    ensures
        targets_rec(a, remaining, max_allocation, num_outputs, total_velocity) == targets_rec(
            b,
            remaining,
            max_allocation,
            num_outputs,
            total_velocity,
        ),
    decreases a.len(),
{
    if a.len() > 0 {
        assert(a.last().velocity == b.last().velocity);
        lemma_targets_rec_congruence(
            a.drop_last(),
            b.drop_last(),
            remaining - clamp_share(
                ideal_share(a.last().velocity as int, max_allocation, num_outputs, total_velocity),
                remaining,
            ),
            max_allocation,
            num_outputs,
            total_velocity,
        );
    }
}

/// The main property of the rebalance: starting from any consistent
/// state it returns a consistent *balanced* state — every note's target
/// is what the allocation formula says and every note holds exactly its
/// target — while the keys, velocities, insertion order and
/// configuration are untouched.
pub proof fn lemma_adjust_abs(m: MpAbs)
    requires
        wf_abs(m),
    ensures
        ({
            let m2 = adjust_abs(m);
            let ts = targets(m.notes, m.max_allocation, m.num_outputs, m.total_velocity);
            &&& wf_abs(m2)
            &&& balanced(m2)
            &&& m2.notes.len() == m.notes.len()
            &&& forall|i: int|
                0 <= i < m.notes.len() ==> {
                    let e2 = #[trigger] m2.notes[i];
                    &&& e2.note == m.notes[i].note
                    &&& e2.channel == m.notes[i].channel
                    &&& e2.velocity == m.notes[i].velocity
                    &&& m.notes.len() > 0 ==> e2.target == ts[i] && e2.outputs.len() == ts[i]
                }
            &&& m2.num_outputs == m.num_outputs
            &&& m2.total_velocity == m.total_velocity
            &&& m2.max_allocation == m.max_allocation
        }),
{
    let m2 = adjust_abs(m);
    if m.notes.len() == 0 {
    } else {
        let nn = m.num_outputs;
        let tv = m.total_velocity;
        let ma = m.max_allocation;
        let ts = targets(m.notes, ma, nn, tv);
        lemma_targets_rec_pointwise(m.notes, nn, ma, nn, tv);
        lemma_targets_rec_len(m.notes, nn, ma, nn, tv);
        let ns1 = assign_targets(m.notes, ts);
        let ns2 = shrink_notes(ns1);
        let pool1 = m.unalloc + freed_from(ns1, 0);

        assert forall|i: int| 0 <= i < ns1.len() implies entry_wf(#[trigger] ns1[i]) by {
            assert(entry_wf(m.notes[i]));
            assert(0 <= ts[i]);
        }
        assert forall|i: int| 0 <= i < ns2.len() implies entry_wf(#[trigger] ns2[i])
            && ns2[i].outputs.len() == (if m.notes[i].outputs.len() > ts[i] {
            ts[i]
        } else {
            m.notes[i].outputs.len() as int
        }) by {
            let d = shrink_count(ns1[i]);
            assert(entry_wf(ns1[i]));
            assert(0 <= d <= ns1[i].outputs.len());
            assert forall|j: int| 0 <= j < ns2[i].outputs.len() implies hist_ok(
                #[trigger] ns2[i].outputs[j],
            ) && hist_active(ns2[i].outputs[j]) == Some((ns2[i].note, ns2[i].channel)) by {
                assert(ns2[i].outputs[j] == ns1[i].outputs[j + d]);
            }
        }

        // The freed endpoints and the idle queue make the grow pool.
        lemma_freed_from_props(ns1, 0);
        let scs = Seq::new(ns1.len(), |k: int| shrink_count(ns1[k]));
        assert(scs.skip(0) =~= scs);
        let outs0 = out_counts(m.notes);
        let outs2 = out_counts(ns2);
        lemma_sum_sub(outs0, outs2, scs);
        assert(pool1.len() == m.unalloc.len() + sum_of(outs0) - sum_of(outs2));

        // The grow pass can serve every note in full.
        let gns = Seq::new(ns2.len(), |k: int| grow_need(ns2[k]));
        assert(gns.skip(0) =~= gns);
        lemma_needs_from_sum(ns2, 0);
        lemma_sum_sub(ts, outs2, gns);
        assert(needs_from(ns2, 0) == sum_of(ts) - sum_of(outs2));
        assert(sum_of(outs0) + m.unalloc.len() == nn);
        assert(sum_of(ts) <= nn);
        assert(needs_from(ns2, 0) <= pool1.len());
        lemma_grow_supply(ns2, pool1, 0);

        // Every idle-queue element in sight is valid and idle.
        assert forall|k: int| 0 <= k < pool1.len() implies idle_wf(#[trigger] pool1[k]) by {
            if k < m.unalloc.len() {
                assert(pool1[k] == m.unalloc[k]);
            } else {
                assert(pool1[k] == freed_from(ns1, 0)[k - m.unalloc.len()]);
            }
        }

        // The grown entries hold exactly their targets and stay consistent.
        assert forall|i: int| 0 <= i < m2.notes.len() implies {
            let e2 = #[trigger] m2.notes[i];
            &&& entry_wf(e2)
            &&& e2.note == m.notes[i].note
            &&& e2.channel == m.notes[i].channel
            &&& e2.velocity == m.notes[i].velocity
            &&& e2.target == ts[i]
            &&& e2.outputs.len() == ts[i]
        } by {
            let p = pool_from(ns2, pool1, i + 1);
            let d = grow_take(ns2[i], p);
            assert(d == grow_need(ns2[i]));
            lemma_pool_from_is_suffix(ns2, pool1, i + 1);
            let e2 = m2.notes[i];
            assert(e2 == grow_entry(ns2[i], p));
            assert(entry_wf(ns2[i]));
            assert(e2.outputs.len() == ns2[i].outputs.len() + d);
            assert forall|j: int| 0 <= j < e2.outputs.len() implies hist_ok(
                #[trigger] e2.outputs[j],
            ) && hist_active(e2.outputs[j]) == Some((e2.note, e2.channel)) by {
                if j < ns2[i].outputs.len() {
                    assert(e2.outputs[j] == ns2[i].outputs[j]);
                } else {
                    let jj = j - ns2[i].outputs.len();
                    assert(e2.outputs[j] == ons_to(p.take(d), e2.note, e2.channel, e2.velocity)[jj]);
                    assert(e2.outputs[j] == p.take(d)[jj].push(
                        SinkEvent::On { note: e2.note, channel: e2.channel, velocity: e2.velocity },
                    ));
                    assert(p[jj] == pool1[pool1.len() - p.len() + jj]);
                    assert(idle_wf(p[jj]));
                    crate::types::lemma_hist_push_on(p[jj], e2.note, e2.channel, e2.velocity);
                }
            }
        }

        // Conservation: the grown notes hold the targets, the rest idles.
        assert(out_counts(m2.notes) =~= ts);
        assert(m2.unalloc.len() == pool1.len() - needs_from(ns2, 0));
        assert(sum_outputs(m2.notes) + m2.unalloc.len() == nn);

        // The idle queue that remains is a suffix of the grow pool.
        lemma_pool_from_is_suffix(ns2, pool1, 0);
        assert forall|j: int| 0 <= j < m2.unalloc.len() implies idle_wf(#[trigger] m2.unalloc[j]) by {
            assert(m2.unalloc[j] == pool1[pool1.len() - m2.unalloc.len() + j]);
        }

        // Velocities, hence the velocity total, are untouched.
        assert(vels(m2.notes) =~= vels(m.notes));

        // The recomputed targets agree, so the state is balanced.
        lemma_targets_rec_congruence(m2.notes, m.notes, nn, ma, nn, tv);
    }
}

/// Audibility in the simplest form: with equal velocities, no binding
/// cap and at most as many notes as endpoints, every note's target is at
/// least one endpoint. (Each note's share is then `num_outputs / len`,
/// at least one, and those shares sum to at most the pool.)
pub proof fn lemma_audibility_uniform(
    ns: Seq<NoteAbs>,
    max_allocation: Option<usize>,
    num_outputs: int,
)
    requires
        1 <= ns.len() <= num_outputs,
        forall|i: int| 0 <= i < ns.len() ==> (#[trigger] ns[i]).velocity == ns[0].velocity,
        1 <= ns[0].velocity,
        !cap_binds(max_allocation, num_outputs, sum_velocity(ns)),
    ensures
        forall|i: int|
            0 <= i < ns.len() ==> #[trigger] targets(
                ns,
                max_allocation,
                num_outputs,
                sum_velocity(ns),
            )[i] >= 1,
{
    let k = ns.len() as int;
    let v = ns[0].velocity as int;
    let nn = num_outputs;
    assert forall|i: int| 0 <= i < vels(ns).len() implies v <= #[trigger] vels(ns)[i] <= v by {}
    lemma_sum_bounds(vels(ns), v, v);
    let tv = sum_velocity(ns);
    assert(tv == v * k);
    vstd::arithmetic::div_mod::lemma_div_multiples_vanish_quotient(v, nn, k);
    assert(nn / k == (v * nn) / (v * k));
    vstd::arithmetic::div_mod::lemma_fundamental_div_mod(nn, k);
    vstd::arithmetic::div_mod::lemma_mod_bound(nn, k);
    assert(nn / k >= 1) by (nonlinear_arith)
        requires
            nn == k * (nn / k) + nn % k,
            0 <= nn % k < k,
            k <= nn,
            1 <= k,
    ;
    let ls = lifted_shares(ns, max_allocation, nn, tv);
    assert forall|i: int| 0 <= i < ls.len() implies nn / k <= #[trigger] ls[i] <= nn / k by {
        assert(ideal_share(ns[i].velocity as int, max_allocation, nn, tv) == (v * nn) / (v * k));
    }
    lemma_sum_bounds(ls, nn / k, nn / k);
    assert((nn / k) * k <= nn) by (nonlinear_arith)
        requires
            nn == k * (nn / k) + nn % k,
            0 <= nn % k,
    ;
    lemma_audibility(ns, max_allocation, nn, tv);
}

// ------------------------------------------------------------------
// The re-entry law
// ------------------------------------------------------------------

/// Everything observable about a note except which endpoints serve it.
pub open spec fn note_shape(e: NoteAbs) -> (Note, Channel, Velocity, int, int) {
    (e.note, e.channel, e.velocity, e.target, e.outputs.len() as int)
}

/// Two states are shaped alike when they agree on everything except
/// endpoint identities: same notes in the same order with the same
/// velocities, targets and endpoint counts, the same number idle, and
/// the same configuration.
pub open spec fn shape_eq(a: MpAbs, b: MpAbs) -> bool {
    &&& a.notes.len() == b.notes.len()
    &&& forall|i: int|
        0 <= i < a.notes.len() ==> note_shape(#[trigger] a.notes[i]) == note_shape(b.notes[i])
    &&& a.unalloc.len() == b.unalloc.len()
    &&& a.num_outputs == b.num_outputs
    &&& a.total_velocity == b.total_velocity
    &&& a.max_allocation == b.max_allocation
}

/// Starting a note that is not sounding keeps the state consistent.
proof fn lemma_push_fresh(m: MpAbs, note: Note, channel: Channel, velocity: Velocity)
    requires
        wf_abs(m),
        !has_key(m.notes, note, channel),
        note <= 127,
        channel <= 15,
        1 <= velocity <= 127,
    ensures
        wf_abs(
            MpAbs {
                notes: m.notes.push(fresh_entry(note, channel, velocity)),
                total_velocity: m.total_velocity + velocity,
                ..m
            },
        ),
{
    let fr = fresh_entry(note, channel, velocity);
    let m1 = MpAbs {
        notes: m.notes.push(fr),
        total_velocity: m.total_velocity + velocity,
        ..m
    };
    assert forall|q: int| 0 <= q < m1.notes.len() implies entry_wf(#[trigger] m1.notes[q]) by {
        if q < m.notes.len() {
            assert(m1.notes[q] == m.notes[q]);
            assert(entry_wf(m.notes[q]));
        } else {
            assert(m1.notes[q] == fr);
        }
    }
    assert forall|q: int, q2: int| 0 <= q < q2 < m1.notes.len() implies !(
    (#[trigger] m1.notes[q]).note == (#[trigger] m1.notes[q2]).note && m1.notes[q].channel
        == m1.notes[q2].channel) by {
        if q2 == m1.notes.len() - 1 {
            assert(m1.notes[q] == m.notes[q]);
            assert(!(m.notes[q].note == note && m.notes[q].channel == channel));
        } else {
            assert(m1.notes[q] == m.notes[q]);
            assert(m1.notes[q2] == m.notes[q2]);
        }
    }
    assert(vels(m1.notes) =~= vels(m.notes).push(velocity as int));
    lemma_sum_push(vels(m.notes), velocity as int);
    assert(out_counts(m1.notes) =~= out_counts(m.notes).push(0));
    lemma_sum_push(out_counts(m.notes), 0);
}

/// The re-entry law: starting a note that was not sounding, stopping it,
/// and starting it again at the same velocity leaves the allocator
/// shaped exactly as a single start would — the same notes with the same
/// velocities, targets and endpoint counts — differing at most in which
/// endpoint serves which note.
pub proof fn lemma_reentry(m: MpAbs, note: Note, channel: Channel, velocity: Velocity)
    requires
        wf_abs(m),
        balanced(m),
        !has_key(m.notes, note, channel),
        note <= 127,
        channel <= 15,
        1 <= velocity <= 127,
    ensures
        shape_eq(
            on_abs(
                off_abs(on_abs(m, note, channel, velocity), note, channel),
                note,
                channel,
                velocity,
            ),
            on_abs(m, note, channel, velocity),
        ),
{
    let nn = m.num_outputs;
    let ma = m.max_allocation;
    let fr = fresh_entry(note, channel, velocity);
    let ll = m.notes.len() as int;

    // First start: the note enters at the end and a rebalance runs.
    let m1 = MpAbs {
        notes: m.notes.push(fr),
        total_velocity: m.total_velocity + velocity,
        ..m
    };
    lemma_push_fresh(m, note, channel, velocity);
    assert(on_abs(m, note, channel, velocity) == adjust_abs(m1));
    let a = adjust_abs(m1);
    lemma_adjust_abs(m1);
    let tsa = targets(m1.notes, ma, nn, m1.total_velocity);
    lemma_targets_rec_len(m1.notes, nn, ma, nn, m1.total_velocity);

    // The stop: the note is the (unique) last entry.
    assert(a.notes[ll].note == note && a.notes[ll].channel == channel && a.notes[ll].velocity
        == velocity);
    lemma_key_index(a.notes, note, channel, ll);
    let e = a.notes[ll];
    let m2 = MpAbs {
        notes: a.notes.remove(ll),
        unalloc: a.unalloc + offs_to(e.outputs, e.note, e.channel),
        total_velocity: a.total_velocity - e.velocity,
        ..a
    };
    assert(off_abs(a, note, channel) == adjust_abs(m2));
    assert forall|q: int| 0 <= q < m2.notes.len() implies #[trigger] m2.notes[q] == a.notes[q] by {}
    assert forall|q: int| 0 <= q < m2.notes.len() implies entry_wf(#[trigger] m2.notes[q]) by {
        assert(entry_wf(a.notes[q]));
    }
    assert forall|q: int, q2: int| 0 <= q < q2 < m2.notes.len() implies !(
    (#[trigger] m2.notes[q]).note == (#[trigger] m2.notes[q2]).note && m2.notes[q].channel
        == m2.notes[q2].channel) by {
        assert(m2.notes[q] == a.notes[q]);
        assert(m2.notes[q2] == a.notes[q2]);
    }
    assert(vels(m2.notes) =~= vels(a.notes).remove(ll));
    lemma_sum_remove(vels(a.notes), ll);
    assert(out_counts(m2.notes) =~= out_counts(a.notes).remove(ll));
    lemma_sum_remove(out_counts(a.notes), ll);
    assert forall|q: int| 0 <= q < m2.unalloc.len() implies idle_wf(#[trigger] m2.unalloc[q]) by {
        if q >= a.unalloc.len() {
            let qq = q - a.unalloc.len();
            assert(m2.unalloc[q] == offs_to(e.outputs, e.note, e.channel)[qq]);
            assert(m2.unalloc[q] == e.outputs[qq].push(
                SinkEvent::Off { note: e.note, channel: e.channel },
            ));
            assert(entry_wf(e));
            crate::types::lemma_hist_push_off(e.outputs[qq], e.note, e.channel);
        }
    }
    assert(wf_abs(m2));
    let c = adjust_abs(m2);
    lemma_adjust_abs(m2);

    // The key is absent again, so the second start appends afresh.
    assert forall|q: int| 0 <= q < c.notes.len() implies !((#[trigger] c.notes[q]).note == note
        && c.notes[q].channel == channel) by {
        assert(c.notes[q].note == m2.notes[q].note && c.notes[q].channel == m2.notes[q].channel);
        assert(m2.notes[q] == a.notes[q]);
        assert(a.notes[q].note == m1.notes[q].note && a.notes[q].channel == m1.notes[q].channel);
        assert(m1.notes[q] == m.notes[q]);
        assert(!(m.notes[q].note == note && m.notes[q].channel == channel));
    }
    assert(!has_key(c.notes, note, channel));
    let m3 = MpAbs {
        notes: c.notes.push(fr),
        total_velocity: c.total_velocity + velocity,
        ..c
    };
    lemma_push_fresh(c, note, channel, velocity);
    assert(on_abs(c, note, channel, velocity) == adjust_abs(m3));
    let b = adjust_abs(m3);
    lemma_adjust_abs(m3);

    // Both final states rebalance tables with identical velocities under
    // the same configuration, so their targets agree everywhere.
    assert(m3.total_velocity == m1.total_velocity);
    assert(m3.notes.len() == m1.notes.len());
    assert forall|q: int| 0 <= q < m3.notes.len() implies #[trigger] m3.notes[q].velocity
        == m1.notes[q].velocity by {
        if q < ll {
            assert(m3.notes[q] == c.notes[q]);
            assert(c.notes[q].velocity == m2.notes[q].velocity);
            assert(m2.notes[q] == a.notes[q]);
            assert(a.notes[q].velocity == m1.notes[q].velocity);
        } else {
            assert(m3.notes[q] == fr);
            assert(m1.notes[q] == fr);
        }
    }
    lemma_targets_rec_congruence(m3.notes, m1.notes, nn, ma, nn, m1.total_velocity);
    let tsb = targets(m3.notes, ma, nn, m3.total_velocity);
    assert(tsb == tsa);

    // Same targets, same counts, same idle remainder: the shapes match.
    assert forall|q: int| 0 <= q < b.notes.len() implies note_shape(#[trigger] b.notes[q])
        == note_shape(a.notes[q]) by {
        assert(b.notes[q].target == tsb[q] && b.notes[q].outputs.len() == tsb[q]);
        assert(a.notes[q].target == tsa[q] && a.notes[q].outputs.len() == tsa[q]);
        assert(b.notes[q].note == m3.notes[q].note && b.notes[q].channel == m3.notes[q].channel
            && b.notes[q].velocity == m3.notes[q].velocity);
        assert(a.notes[q].note == m1.notes[q].note && a.notes[q].channel == m1.notes[q].channel
            && a.notes[q].velocity == m1.notes[q].velocity);
        if q < ll {
            assert(m3.notes[q] == c.notes[q]);
            assert(m2.notes[q] == a.notes[q]);
            assert(m1.notes[q] == m.notes[q]);
        } else {
            assert(m3.notes[q] == fr);
            assert(m1.notes[q] == fr);
        }
    }
    assert(out_counts(b.notes) =~= tsb);
    assert(out_counts(a.notes) =~= tsa);
    assert(b.unalloc.len() == nn - sum_of(tsb));
    assert(a.unalloc.len() == nn - sum_of(tsa));
    assert(shape_eq(b, a));
}

/// Audibility at the top level: if the lifted demand fits the pool, every
/// note's target allocation is at least one endpoint.
pub proof fn lemma_audibility(
    ns: Seq<NoteAbs>,
    max_allocation: Option<usize>,
    num_outputs: int,
    total_velocity: int,
)
    requires
        sum_of(lifted_shares(ns, max_allocation, num_outputs, total_velocity)) <= num_outputs,
    ensures
        forall|i: int|
            0 <= i < ns.len() ==> #[trigger] targets(
                ns,
                max_allocation,
                num_outputs,
                total_velocity,
            )[i] >= 1,
{
    lemma_audibility_rec(ns, num_outputs, max_allocation, num_outputs, total_velocity);
}

} // verus!
