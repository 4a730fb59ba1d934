//! The allocator's stated laws.
//!
//! Each lemma here states, over the ghost model, a property that holds
//! of every allocator a caller can reach through the public operations:
//! the operations' own contracts establish `well_formed`, and these
//! lemmas spell out what that buys. The re-entry law lives in
//! [`crate::allocation::lemma_reentry`], and the per-computation laws
//! about the target formula in [`crate::allocation::lemma_allocation_sum`]
//! and [`crate::allocation::lemma_audibility`].

use vstd::prelude::*;

use crate::allocation::{
    cap_binds, entry_wf, idle_wf, lemma_allocation_sum, lemma_audibility,
    lemma_audibility_uniform, lemma_targets_rec_len, lifted_shares, sum_of, sum_outputs,
    sum_targets, sum_velocity, target_counts, targets,
};
use crate::midiplex::Midiplexer;
use crate::types::{hist_active, hist_ok, Output};

verus! {

/// Endpoint conservation: the idle queue and the per-note queues
/// together always hold exactly the endpoints supplied at construction —
/// none lost, none duplicated.
pub proof fn lemma_endpoint_conservation<O: Output>(m: &Midiplexer<O>)
    requires
        m.well_formed(),
    ensures
        sum_outputs(m.abs().notes) + m.abs().unalloc.len() == m.abs().num_outputs,
{
}

/// Velocity accounting: the recorded total is always the sum of the
/// sounding notes' velocities.
pub proof fn lemma_velocity_total<O: Output>(m: &Midiplexer<O>)
    requires
        m.well_formed(),
    ensures
        m.abs().total_velocity == sum_velocity(m.abs().notes),
{
}

/// Stream alternation: every endpoint's command stream alternates `on`
/// and `off`, starting with `on` — no double-on, no orphan off — and an
/// endpoint currently believes exactly the note it is filed under, or
/// nothing at all while it idles.
pub proof fn lemma_stream_alternation<O: Output>(m: &Midiplexer<O>)
    requires
        m.well_formed(),
    ensures
        forall|i: int, j: int|
            0 <= i < m.abs().notes.len() && 0 <= j < m.abs().notes[i].outputs.len() ==> {
                &&& hist_ok(#[trigger] m.abs().notes[i].outputs[j])
                &&& hist_active(m.abs().notes[i].outputs[j]) == Some(
                    (m.abs().notes[i].note, m.abs().notes[i].channel),
                )
            },
        forall|j: int| 0 <= j < m.abs().unalloc.len() ==> idle_wf(#[trigger] m.abs().unalloc[j]),
{
    assert forall|i: int, j: int|
        0 <= i < m.abs().notes.len() && 0 <= j < m.abs().notes[i].outputs.len() implies {
        &&& hist_ok(#[trigger] m.abs().notes[i].outputs[j])
        &&& hist_active(m.abs().notes[i].outputs[j]) == Some(
            (m.abs().notes[i].note, m.abs().notes[i].channel),
        )
    } by {
        assert(entry_wf(m.abs().notes[i]));
    }
}

/// Allocation sum: a rebalance never promises more endpoints than exist;
/// the targets written into the table sum to at most the pool size.
pub proof fn lemma_allocation_within_pool<O: Output>(m: &Midiplexer<O>)
    requires
        m.well_formed(),
    ensures
        sum_targets(m.abs().notes) <= m.abs().num_outputs,
{
    let a = m.abs();
    let ts = targets(a.notes, a.max_allocation, a.num_outputs, a.total_velocity);
    lemma_allocation_sum(a.notes, a.max_allocation, a.num_outputs, a.total_velocity);
    lemma_targets_rec_len(a.notes, a.num_outputs, a.max_allocation, a.num_outputs,
        a.total_velocity);
    assert(target_counts(a.notes) =~= ts);
}

/// Audibility: while the pool covers every note's lifted share — its
/// proportional share of the pool, lifted to a floor of one endpoint —
/// no note is sacrificed: every sounding note is assigned, and holds, at
/// least one endpoint.
pub proof fn lemma_audibility_held<O: Output>(m: &Midiplexer<O>)
    requires
        m.well_formed(),
        sum_of(
            lifted_shares(
                m.abs().notes,
                m.abs().max_allocation,
                m.abs().num_outputs,
                m.abs().total_velocity,
            ),
        ) <= m.abs().num_outputs,
    ensures
        forall|i: int|
            0 <= i < m.abs().notes.len() ==> (#[trigger] m.abs().notes[i]).target >= 1
                && m.abs().notes[i].outputs.len() >= 1,
{
    let a = m.abs();
    lemma_audibility(a.notes, a.max_allocation, a.num_outputs, a.total_velocity);
}

/// Audibility in the simplest form: with all velocities equal, no
/// binding cap, and no more sounding notes than endpoints, every note is
/// assigned, and holds, at least one endpoint.
pub proof fn lemma_audibility_uniform_held<O: Output>(m: &Midiplexer<O>)
    requires
        m.well_formed(),
        1 <= m.abs().notes.len() <= m.abs().num_outputs,
        forall|i: int|
            0 <= i < m.abs().notes.len() ==> (#[trigger] m.abs().notes[i]).velocity
                == m.abs().notes[0].velocity,
        !cap_binds(m.abs().max_allocation, m.abs().num_outputs, m.abs().total_velocity),
    ensures
        forall|i: int|
            0 <= i < m.abs().notes.len() ==> (#[trigger] m.abs().notes[i]).target >= 1
                && m.abs().notes[i].outputs.len() >= 1,
{
    let a = m.abs();
    assert(entry_wf(a.notes[0]));
    lemma_audibility_uniform(a.notes, a.max_allocation, a.num_outputs);
}

} // verus!
