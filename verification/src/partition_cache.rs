//! Resolving `(namespace, table, partition key)` to the partition's catalog
//! id: an in-memory cache pre-warmed at startup, and the retry-forever
//! decision rule for the catalog resolver behind it.
//!
//! The catalog call itself is I/O and stays with the caller: on a miss the
//! caller asks the catalog, feeds the outcome to [`resolve_step`], and on
//! success puts the id into the cache.

use vstd::prelude::*;

use crate::ids::{NamespaceId, PartitionId, TableId, PartitionKey};

verus! {

/// One cached resolution.
pub struct CacheEntry {
    pub namespace_id: NamespaceId,
    pub table_id: TableId,
    pub partition_key: PartitionKey,
    pub partition_id: PartitionId,
}

impl CacheEntry {
    pub open spec fn matches(&self, ns: u64, table: u64, key: Seq<u8>) -> bool {
        self.namespace_id.0 == ns && self.table_id.0 == table && self.partition_key@ == key
    }
}

/// The id the cache holds for a triple, if any: the first matching entry's.
pub open spec fn cache_lookup(entries: Seq<CacheEntry>, ns: u64, table: u64, key: Seq<u8>)
    -> Option<u64>
    decreases entries.len(),
{
    if entries.len() == 0 {
        None
    } else if entries[0].matches(ns, table, key) {
        Some(entries[0].partition_id.0)
    } else {
        cache_lookup(entries.drop_first(), ns, table, key)
    }
}

/// Partition-id cache, pre-warmed with the most recently used partitions.
pub struct PartitionCache {
    entries: Vec<CacheEntry>,
}

impl PartitionCache {
    pub closed spec fn entries_view(&self) -> Seq<CacheEntry> {
        self.entries@
    }

    /// The id cached for a triple.
    pub open spec fn spec_get(&self, ns: u64, table: u64, key: Seq<u8>) -> Option<u64> {
        cache_lookup(self.entries_view(), ns, table, key)
    }

    /// Builds the cache from the pre-warm list, most recently used first,
    /// keeping at most `capacity` entries.
    pub fn new(prewarm: Vec<CacheEntry>, capacity: usize) -> (r: Self)
        ensures
            r.entries_view() == prewarm@.take(if prewarm@.len() <= capacity {
                prewarm@.len() as int
            } else {
                capacity as int
            }),
    {
        let ghost orig = prewarm@;
        let mut prewarm = prewarm;
        if prewarm.len() > capacity {
            prewarm.truncate(capacity);
        }
        proof {
            if orig.len() <= capacity {
                assert(prewarm@ =~= orig.take(orig.len() as int));
            }
        }
        PartitionCache { entries: prewarm }
    }

    /// Looks a triple up.
    pub fn get(&self, ns: NamespaceId, table: TableId, key: &PartitionKey) -> (r: Option<
        PartitionId,
    >)
        ensures
            match r {
                Some(id) => self.spec_get(ns.0, table.0, key@) == Some(id.0),
                None => self.spec_get(ns.0, table.0, key@) is None,
            },
    {
        let n = self.entries.len();
        let mut i: usize = 0;
        proof {
            assert(self.entries@.skip(0) =~= self.entries@);
        }
        while i < n
            invariant
                n == self.entries@.len(),
                i <= n,
                cache_lookup(self.entries@, ns.0, table.0, key@) == cache_lookup(
                    self.entries@.skip(i as int),
                    ns.0,
                    table.0,
                    key@,
                ),
            decreases n - i,
        {
            let e = &self.entries[i];
            proof {
                assert(self.entries@.skip(i as int)[0] == self.entries@[i as int]);
                assert(self.entries@.skip(i as int).drop_first() =~= self.entries@.skip(i + 1));
            }
            if e.namespace_id.0 == ns.0 && e.table_id.0 == table.0 && e.partition_key.eq_key(key)
            {
                return Some(e.partition_id);
            }
            i += 1;
        }
        proof {
            assert(self.entries@.skip(n as int) =~= Seq::<CacheEntry>::empty());
        }
        None
    }

    /// Records a resolution the catalog handed back, so later lookups of
    /// the triple hit.
    pub fn insert(&mut self, entry: CacheEntry)
        ensures
            final(self).entries_view() == seq![entry] + old(self).entries_view(),
            final(self).spec_get(
                entry.namespace_id.0,
                entry.table_id.0,
                entry.partition_key@,
            ) == Some(entry.partition_id.0),
    {
        self.entries.insert(0, entry);
        proof {
            assert(final(self).entries_view() =~= seq![entry] + old(self).entries_view());
            assert(final(self).entries_view()[0] == entry);
            assert(entry.matches(entry.namespace_id.0, entry.table_id.0, entry.partition_key@));
        }
    }
}

/// The backoff crate's policy type, declared so values of it can be held
/// and passed through; nothing inside it is visible here.
#[verifier::external_type_specification]
#[verifier::external_body]
#[verifier::reject_recursive_types(C)]
pub struct ExExponentialBackoff<C>(backoff::exponential::ExponentialBackoff<C>);

/// The backoff crate's wall clock, the policy's default time source.
#[verifier::external_type_specification]
#[verifier::external_body]
pub struct ExSystemClock(backoff::SystemClock);

/// Fallback delay when the backoff policy declines to give one.
pub const DEFAULT_RETRY_DELAY_MS: u64 = 500;

/// Relies on `backoff::ExponentialBackoffBuilder`: builds the crate's
/// exponential backoff policy with no elapsed-time cap, since the resolver
/// retries forever rather than drop data.
#[verifier::external_body]
fn new_retry_policy() -> backoff::exponential::ExponentialBackoff<backoff::SystemClock> {
    backoff::ExponentialBackoffBuilder::new().with_max_elapsed_time(None).build()
}

/// Relies on `backoff::backoff::Backoff::next_backoff`: the next randomised
/// exponential delay.  The value depends on the clock and on randomness, so
/// nothing is promised of it.
#[verifier::external_body]
fn next_backoff_ms(
    policy: &mut backoff::exponential::ExponentialBackoff<backoff::SystemClock>,
) -> Option<u64> {
    backoff::backoff::Backoff::next_backoff(policy).map(
        |d| u64::try_from(d.as_millis()).unwrap_or(u64::MAX),
    )
}

/// The retry policy a catalog resolver runs under: exponential backoff,
/// never giving up.
pub struct RetryPolicy {
    policy: backoff::exponential::ExponentialBackoff<backoff::SystemClock>,
}

impl RetryPolicy {
    pub fn new() -> Self {
        RetryPolicy { policy: new_retry_policy() }
    }

    /// The delay in milliseconds to wait before the next retry.  The policy
    /// draws it from randomised exponential backoff, so no bound is stated.
    pub fn next_delay_ms(&mut self) -> u64 {
        match next_backoff_ms(&mut self.policy) {
            Some(ms) => ms,
            None => DEFAULT_RETRY_DELAY_MS,
        }
    }
}

/// What a resolver does with one catalog outcome: a resolved id finishes
/// the lookup; anything else is retried after the policy's delay, forever.
pub enum ResolveAction {
    /// The catalog resolved the partition.
    Done(PartitionId),
    /// Ask again after this many milliseconds.
    Retry(u64),
}

/// The resolver's decision rule, applied by the loop that talks to the
/// catalog.
pub fn resolve_step(outcome: Option<PartitionId>, delay_ms: u64) -> (r: ResolveAction)
    ensures
        match outcome {
            Some(id) => r == ResolveAction::Done(id),
            None => r == ResolveAction::Retry(delay_ms),
        },
{
    match outcome {
        Some(id) => ResolveAction::Done(id),
        None => ResolveAction::Retry(delay_ms),
    }
}

} // verus!
