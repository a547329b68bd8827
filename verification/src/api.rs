//! The two authenticated endpoints, as decisions over plain values:
//! an ingest request carries an optional secret and a raw body; a query
//! carries just the secret. Authentication is checked before anything
//! else, and a request that fails it changes nothing at all.

use vstd::prelude::*;
use crate::codec::sp_stats;
use crate::codec::parse_stats;
use crate::store::{
    entries_of, merge_rows, sorted_desc, spec_view_qrows, sum_counts, sum_counts_cat, sum_pairs,
    StatsReport, Store, StoreError,
};
use crate::classify::Category;
use crate::text::secret_matches;

verus! {

/// The reply of the ingest endpoint.
#[derive(Clone, Copy, Debug, PartialEq, Eq, Structural)]
pub enum IngestReply {
    /// The snapshot was merged; carries the number of identifiers processed.
    Accepted { events_processed: usize },
    /// Missing or wrong secret: nothing was read or written.
    Unauthorized,
    /// The body is not a well-formed snapshot document: nothing was written.
    BadRequest,
    /// The store could not take the merge; it was rolled back whole.
    ServerError,
}

/// Whether a request's secret passes.
pub open spec fn spec_authorized(provided: Option<&str>, expected: &str) -> bool {
    match provided {
        Some(p) => p@ == expected@,
        None => false,
    }
}

/// Authenticate, validate, then merge within one atomic step: the
/// store changes exactly when the reply is `Accepted`, and then by
/// exactly the snapshot's deltas plus the sync marks. The body must be
/// in the exact canonical document form that `codec::encode_stats`
/// writes — the agent is this service's only intended client — and
/// anything else is `BadRequest`.
pub fn handle_ingest(
    store: &mut Store,
    provided_secret: Option<&str>,
    expected_secret: &str,
    body: &str,
    now: u64,
) -> (r: IngestReply)
    requires
        old(store)@.wf(),
    ensures
        final(store)@.wf(),
        !spec_authorized(provided_secret, expected_secret) ==> r == IngestReply::Unauthorized
            && *final(store) == *old(store),
        spec_authorized(provided_secret, expected_secret) ==> match sp_stats(body@) {
            None => r == IngestReply::BadRequest && *final(store) == *old(store),
            Some(v) => {
                if sum_counts(old(store)@.rows) + sum_pairs(v.events) <= u64::MAX {
                    &&& r matches IngestReply::Accepted { events_processed }
                        && events_processed == v.events.len()
                    &&& final(store)@.rows == merge_rows(old(store)@.rows, v.events, now)
                    &&& final(store)@.last_sync == Some(now)
                    &&& final(store)@.first_sync == (match old(store)@.first_sync {
                        Some(t) => Some(t),
                        None => Some(now),
                    })
                } else {
                    r == IngestReply::ServerError && *final(store) == *old(store)
                }
            },
        },
{
    if !secret_matches(provided_secret, expected_secret) {
        return IngestReply::Unauthorized;
    }
    let snap = match parse_stats(body) {
        Some(s) => s,
        None => {
            return IngestReply::BadRequest;
        },
    };
    match store.merge_snapshot(&snap, now) {
        Ok(n) => IngestReply::Accepted { events_processed: n },
        Err(StoreError::Capacity) => IngestReply::ServerError,
    }
}

/// Authenticate, then read: `None` exactly on a missing or wrong
/// secret; otherwise the full recomputed aggregate. A read never
/// changes the store.
pub fn handle_query(store: &Store, provided_secret: Option<&str>, expected_secret: &str) -> (r:
    Option<StatsReport>)
    requires
        store@.wf(),
    ensures
        (r is None) == !spec_authorized(provided_secret, expected_secret),
        match r {
            None => true,
            Some(rep) => {
                &&& rep.total_keys as int == sum_counts_cat(store@.rows, Category::Key)
                &&& rep.total_clicks as int == sum_counts_cat(store@.rows, Category::Click)
                &&& rep.total_wheels as int == sum_counts_cat(store@.rows, Category::Wheel)
                &&& rep.first_sync == store@.first_sync
                &&& rep.last_sync == store@.last_sync
                &&& spec_view_qrows(rep.events@).to_multiset() == entries_of(
                    store@.rows,
                ).to_multiset()
                &&& sorted_desc(spec_view_qrows(rep.events@))
            },
        },
{
    if !secret_matches(provided_secret, expected_secret) {
        return None;
    }
    Some(store.query())
}

} // verus!
