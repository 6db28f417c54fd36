//! Configuration the surrounding process injects: the knobs of the ingest
//! core, and the router-side settings for the write path that feeds it.

use vstd::prelude::*;

verus! {

broadcast use vstd::string::to_string_from_display_ensures_for_str;

/// Settings of the router that forwards writes over RPC to ingesters.
pub struct RouterRpcWriteConfig {
    /// The maximum number of simultaneous requests the HTTP server accepts.
    pub http_request_limit: usize,
    /// The gRPC addresses of the ingesters the router writes to.
    pub ingester_addresses: Vec<String>,
    /// Write buffer topic to use.
    pub topic: String,
    /// Query pool name to dispatch writes to.
    pub query_pool_name: String,
    /// Retention period, in hours, for auto-created namespaces; unset means
    /// infinite retention.
    pub new_namespace_retention_hours: Option<u64>,
}

impl RouterRpcWriteConfig {
    /// The defaults the command line would apply: 200 simultaneous
    /// requests, the shared topic and query pool, infinite retention.
    pub fn new() -> (r: Self)
        ensures
            r.http_request_limit == 200,
            r.ingester_addresses@.len() == 0,
            r.topic@ == "iox-shared"@,
            r.query_pool_name@ == "iox-shared"@,
            r.new_namespace_retention_hours is None,
    {
        RouterRpcWriteConfig {
            http_request_limit: 200,
            ingester_addresses: Vec::new(),
            topic: "iox-shared".to_string(),
            query_pool_name: "iox-shared".to_string(),
            new_namespace_retention_hours: None,
        }
    }
}

/// The knobs of the ingest core itself; the caller parses and injects them.
pub struct IngesterConfig {
    /// Milliseconds between forced rotations of the write-ahead log.
    pub wal_rotation_period_ms: u64,
    /// Upper bound, in milliseconds, of the random delay before a deferred
    /// metadata load runs.
    pub persist_background_fetch_time_ms: u64,
    /// Depth of the persist submission queue; the global back-pressure.
    pub persist_submission_queue_depth: usize,
    /// Number of persist workers.
    pub persist_workers: usize,
    /// Depth of each worker's queue.
    pub persist_worker_queue_depth: usize,
    /// How many recently used partitions to pre-warm the cache with.
    pub partition_cache_capacity: usize,
}

impl IngesterConfig {
    /// The defaults: rotate every five minutes, pre-warm forty thousand
    /// partitions.
    pub fn new() -> (r: Self)
        ensures
            r.wal_rotation_period_ms == 300_000,
            r.persist_background_fetch_time_ms == 30_000,
            r.persist_submission_queue_depth == 5,
            r.persist_workers == 5,
            r.persist_worker_queue_depth == 20,
            r.partition_cache_capacity == 40_000,
    {
        IngesterConfig {
            wal_rotation_period_ms: 300_000,
            persist_background_fetch_time_ms: 30_000,
            persist_submission_queue_depth: 5,
            persist_workers: 5,
            persist_worker_queue_depth: 20,
            partition_cache_capacity: 40_000,
        }
    }
}

} // verus!
