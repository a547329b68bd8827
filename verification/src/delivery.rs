//! The delivery client's decisions. The loop around them — the timer,
//! the network call, the spool file itself — lives outside; these
//! functions decide what to send, and what the outcome means for the
//! counters and the spool.

use vstd::prelude::*;
use crate::codec::{encode_stats, lemma_round_trip, parse_stats, sp_stats, spec_encode};
use crate::stats::{keys_plain, Stats, StatsGhost};

verus! {

/// What must happen to the spool file after a delivery attempt.
#[derive(Clone, Copy, Debug, PartialEq, Eq, Structural)]
pub enum SpoolCommand {
    /// Delivery confirmed: remove the spool file.
    Clear,
    /// Delivery failed: write the snapshot to the spool file.
    Save,
}

/// Whether a delivery attempt should be made at all: an entirely zero
/// snapshot is never sent.
pub fn should_deliver(stats: &Stats) -> (r: bool)
    ensures
        r == !stats@.is_zero(),
{
    !stats.is_zero()
}

/// The wire body for one delivery attempt, and the spool file's
/// content when that attempt fails. For any state whose identifiers
/// are distinct and plain — which `new`, the `record` operations and
/// `restore_snapshot` all preserve — `codec::lemma_round_trip`
/// guarantees this text parses back to exactly the same state.
pub fn delivery_body(stats: &Stats) -> (r: String)
    ensures
        r@ == spec_encode(stats@),
{
    encode_stats(stats)
}

/// Apply a delivery outcome. On success the counters reset and the
/// spool is cleared; on any failure everything is kept and the snapshot
/// goes to the spool, so a failed window composes additively with the
/// events captured after it — nothing is lost and nothing doubled on
/// the agent's side.
pub fn settle_delivery(stats: &mut Stats, delivered: bool) -> (cmd: SpoolCommand)
    ensures
        delivered ==> cmd == SpoolCommand::Clear && final(stats)@.is_zero() && final(stats)@.wf()
            && final(stats)@.consistent(),
        !delivered ==> cmd == SpoolCommand::Save && *final(stats) == *old(stats),
{
    if delivered {
        stats.reset();
        SpoolCommand::Clear
    } else {
        SpoolCommand::Save
    }
}

/// A spool written for an aggregator state with distinct, plain
/// identifiers — and every state that `new`, the `record` operations,
/// `reset` and `restore_snapshot` produce is such a state — parses
/// back to exactly that state: a restarted agent resumes counting from
/// the spooled values, never from zero.
pub proof fn lemma_spool_restores_state(v: StatsGhost)
    requires
        v.wf(),
        keys_plain(v.events),
    ensures
        sp_stats(spec_encode(v)) == Some(v),
{
    lemma_round_trip(v);
}

/// Rebuild the aggregator at startup. A readable, well-formed spool
/// text yields exactly the snapshot it holds; a missing or damaged
/// spool yields a zeroed aggregator — never an error.
pub fn restore_snapshot(spool: Option<&str>) -> (r: Stats)
    ensures
        r@.wf(),
        keys_plain(r@.events),
        match spool {
            Some(text) => match sp_stats(text@) {
                Some(v) => r@ == v,
                None => r@.is_zero(),
            },
            None => r@.is_zero(),
        },
{
    match spool {
        Some(text) => match parse_stats(text) {
            Some(s) => s,
            None => Stats::new(),
        },
        None => Stats::new(),
    }
}

} // verus!
