//! Cache-layer decisions: when a persisted entry may stand in for the
//! network, and when the network must be asked.
//!
//! The store itself (opening it, reading and writing rows) lives outside the
//! engine; these functions are the policy it consults.

use vstd::prelude::*;

verus! {

/// Where a request's data is to come from.
#[derive(Clone, Copy, PartialEq, Eq, Structural, Debug)]
pub enum RequestSource {
    Cache,
    Network,
}

/// Freshness of a timed cache entry: it still counts while less than `ttl`
/// seconds have passed since it was fetched. An entry stamped in the future
/// (a clock that went backwards) counts as fresh.
pub fn is_fresh(now: u64, fetched_at: u64, ttl: u64) -> (r: bool)
    ensures
        r <==> (now as int) < fetched_at + ttl,
{
    if now < fetched_at {
        true
    } else {
        now - fetched_at < ttl
    }
}

/// Where a thread request reads from: the cache exactly when the caller did
/// not force a refresh and the store holds an entry for the thread — a
/// thread entry stays good until a forced refresh supersedes it.
pub fn plan_thread_request(force_refresh: bool, cache_has_entry: bool) -> (r: RequestSource)
    ensures
        r == RequestSource::Cache <==> (!force_refresh && cache_has_entry),
        r == RequestSource::Cache || r == RequestSource::Network,
{
    if !force_refresh && cache_has_entry {
        RequestSource::Cache
    } else {
        RequestSource::Network
    }
}

/// Where a single story lookup reads from: the cache exactly when no
/// refresh was forced and the stored entry is still within its time to
/// live.
pub fn plan_story_request(
    force_refresh: bool,
    cache_entry: Option<u64>,
    now: u64,
    ttl: u64,
) -> (r: RequestSource)
    ensures
        r == RequestSource::Cache <==> (!force_refresh && (cache_entry matches Some(fetched_at)
            && (now as int) < fetched_at + ttl)),
        r == RequestSource::Cache || r == RequestSource::Network,
{
    if force_refresh {
        RequestSource::Network
    } else {
        match cache_entry {
            Some(fetched_at) => if is_fresh(now, fetched_at, ttl) {
                RequestSource::Cache
            } else {
                RequestSource::Network
            },
            None => RequestSource::Network,
        }
    }
}

} // verus!
