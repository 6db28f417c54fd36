//! The persistence pipeline: routing, queue order, compaction, metadata,
//! file names, segment release, and the cancellation protocol.

use ingester_core::buffer::BufferTree;
use ingester_core::ids::{NamespaceId, PartitionId, PartitionKey, SegmentId, SequenceNumber, TableId};
use ingester_core::op::{ColumnBatch, SequencedOp, TableBatch, Write};
use ingester_core::partition_cache::{CacheEntry, PartitionCache, ResolveAction, resolve_step};
use ingester_core::persist::{
    build_metadata, compact_batches, object_path, segment_file_name, worker_for, PersistHandle,
    PersistJob,
};
use ingester_core::sink::{apply_protocol_step, ApplyAction, ApplyEvent, ApplyPhase, DmlSink, WalSink};
use ingester_core::persist::rotation_tick;
use ingester_core::wal::Wal;

fn key(s: &[u8]) -> PartitionKey {
    PartitionKey::new(s.to_vec()).unwrap()
}

fn job(pid: u64, seq: u64) -> PersistJob {
    PersistJob {
        namespace_id: NamespaceId::new(1),
        table_id: TableId::new(2),
        partition_key: key(b"k"),
        partition_id: PartitionId::new(pid),
        batches: Vec::new(),
        max_sequence: seq,
    }
}

/// Jobs of one partition land on one worker, and come out in the order
/// they went in.
#[test]
fn same_partition_serialised() {
    assert_eq!(worker_for(PartitionId::new(9), 4), 1);
    assert_eq!(worker_for(PartitionId::new(9), 4), worker_for(PartitionId::new(9), 4));

    let mut handle = PersistHandle::new(8, 4, 8);
    handle.submit(job(9, 1)).map_err(|_| ()).unwrap();
    handle.submit(job(9, 2)).map_err(|_| ()).unwrap();
    let w1 = handle.dispatch_one().unwrap();
    let w2 = handle.dispatch_one().unwrap();
    assert_eq!(w1, 1);
    assert_eq!(w2, 1);
    let first = handle.next_for_worker(w1).unwrap();
    let second = handle.next_for_worker(w1).unwrap();
    assert_eq!(first.max_sequence, 1);
    assert_eq!(second.max_sequence, 2);
    assert!(handle.next_for_worker(w1).is_none());
}

/// A full submission queue hands the job back: back-pressure, not loss.
#[test]
fn submission_backpressure() {
    let mut handle = PersistHandle::new(1, 2, 1);
    assert!(handle.submit(job(1, 1)).is_ok());
    let back = handle.submit(job(1, 2));
    assert!(back.is_err());
    assert_eq!(back.err().unwrap().max_sequence, 2);
}

/// Compaction concatenates and sorts by time, keeping every row.
#[test]
fn compaction_sorts_by_time() {
    let mut b1 = ColumnBatch::new();
    b1.push_row(30, 3);
    b1.push_row(10, 1);
    let mut b2 = ColumnBatch::new();
    b2.push_row(20, 2);
    let out = compact_batches(&vec![b1, b2]);
    assert_eq!(out.row_count(), 3);
    assert_eq!((out.time_at(0), out.value_at(0)), (10, 1));
    assert_eq!((out.time_at(1), out.value_at(1)), (20, 2));
    assert_eq!((out.time_at(2), out.value_at(2)), (30, 3));
}

/// The embedded metadata blob carries the exact bounds of the rows.
#[test]
fn metadata_bounds() {
    let mut batch = ColumnBatch::new();
    batch.push_row(5, 50);
    batch.push_row(7, 70);
    batch.push_row(9, 90);
    let md = build_metadata(
        NamespaceId::new(1),
        TableId::new(2),
        PartitionId::new(3),
        &batch,
        100,
    )
    .unwrap();
    assert_eq!(md.min_time, 5);
    assert_eq!(md.max_time, 9);
    assert_eq!(md.row_count, 3);
    assert_eq!(md.max_sequence, 100);

    let empty = ColumnBatch::new();
    assert!(build_metadata(
        NamespaceId::new(1),
        TableId::new(2),
        PartitionId::new(3),
        &empty,
        100
    )
    .is_none());
}

/// Segment files and persisted files are named from the ids in decimal.
#[test]
fn file_names() {
    assert_eq!(segment_file_name(SegmentId::new(42)), b"42.dat".to_vec());
    assert_eq!(segment_file_name(SegmentId::new(0)), b"0.dat".to_vec());
    assert_eq!(
        object_path(
            NamespaceId::new(1),
            TableId::new(20),
            PartitionId::new(300),
            &b"u-1".to_vec()
        ),
        b"1/20/300/u-1.parquet".to_vec()
    );
}

/// A segment is released only once the partitions it holds have persisted
/// past its sequence numbers.
#[test]
fn persist_releases_segment() {
    let ns = NamespaceId::new(7);
    let t = TableId::new(1);
    let k = key(b"2024-01-01");

    let mut tree = BufferTree::new(PartitionCache::new(Vec::new(), 10));
    let mut wal = Wal::new();
    for seq in 1..=3u64 {
        let mut batch = ColumnBatch::new();
        batch.push_row(seq, seq);
        let op = SequencedOp::new(
            SequenceNumber::new(seq),
            ns,
            Write { partition_key: key(b"2024-01-01"), tables: vec![TableBatch::new(t, batch)] },
        );
        wal.append(&op).unwrap();
        tree.apply(&op);
    }
    let closed = wal.rotate();
    assert_eq!(closed.id().get(), 0);
    assert_eq!(closed.max_sequence().map(|s| s.get()), Some(3));

    // Nothing persisted yet: the segment stays.
    let (released, _, _, _) = ingester_core::persist::release_persisted_segments(&mut wal, &tree);
    assert!(released.is_empty());
    assert_eq!(wal.closed_segments().len(), 1);

    // Snapshot the partition and record the persist completion.
    let (batches, max_seq) = tree.snapshot_partition(ns, t, &k).unwrap();
    assert_eq!(max_seq, 3);
    assert_eq!(batches.len(), 1);
    tree.mark_persisted(ns, t, &k, max_seq);

    // Now the segment is deletable, and deleted.
    let (released, _, _, _) = ingester_core::persist::release_persisted_segments(&mut wal, &tree);
    let ids: Vec<u64> = released.iter().map(|s| s.get()).collect();
    assert_eq!(ids, vec![0]);
    assert!(wal.closed_segments().is_empty());
}

/// Cancelling after the append still runs the buffer apply.
#[test]
fn cancel_after_append_applies() {
    assert_eq!(
        apply_protocol_step(ApplyPhase::AfterAppend, ApplyEvent::Cancel),
        (ApplyPhase::Done, ApplyAction::RunApply)
    );
    assert_eq!(
        apply_protocol_step(ApplyPhase::AfterAppend, ApplyEvent::Poll),
        (ApplyPhase::Done, ApplyAction::RunApply)
    );
    assert_eq!(
        apply_protocol_step(ApplyPhase::BeforeAppend, ApplyEvent::Cancel),
        (ApplyPhase::Done, ApplyAction::Abort)
    );
    assert_eq!(
        apply_protocol_step(ApplyPhase::BeforeAppend, ApplyEvent::Poll),
        (ApplyPhase::AfterAppend, ApplyAction::RunAppend)
    );
}

/// The partition cache serves pre-warmed entries and learns resolutions.
#[test]
fn partition_cache_lookup() {
    let prewarm = vec![CacheEntry {
        namespace_id: NamespaceId::new(1),
        table_id: TableId::new(2),
        partition_key: key(b"a"),
        partition_id: PartitionId::new(10),
    }];
    let mut cache = PartitionCache::new(prewarm, 100);
    let hit = cache.get(NamespaceId::new(1), TableId::new(2), &key(b"a"));
    assert_eq!(hit.map(|p| p.get()), Some(10));
    assert!(cache
        .get(NamespaceId::new(1), TableId::new(2), &key(b"b"))
        .is_none());

    cache.insert(CacheEntry {
        namespace_id: NamespaceId::new(1),
        table_id: TableId::new(2),
        partition_key: key(b"b"),
        partition_id: PartitionId::new(11),
    });
    let hit = cache.get(NamespaceId::new(1), TableId::new(2), &key(b"b"));
    assert_eq!(hit.map(|p| p.get()), Some(11));

    // The resolver's decision rule: done on an id, retry otherwise.
    assert!(matches!(
        resolve_step(Some(PartitionId::new(5)), 250),
        ResolveAction::Done(p) if p.get() == 5
    ));
    assert!(matches!(resolve_step(None, 250), ResolveAction::Retry(250)));
}

/// A pre-warm list longer than the capacity is truncated.
#[test]
fn cache_capacity() {
    let mut prewarm = Vec::new();
    for i in 0..5u64 {
        prewarm.push(CacheEntry {
            namespace_id: NamespaceId::new(1),
            table_id: TableId::new(2),
            partition_key: key(format!("k{}", i).as_bytes()),
            partition_id: PartitionId::new(i),
        });
    }
    let cache = PartitionCache::new(prewarm, 3);
    assert!(cache.get(NamespaceId::new(1), TableId::new(2), &key(b"k2")).is_some());
    assert!(cache.get(NamespaceId::new(1), TableId::new(2), &key(b"k4")).is_none());
}

/// A rotation tick closes the segment and snapshots each resolved,
/// non-empty partition into one job.
#[test]
fn rotation_tick_builds_jobs() {
    let ns = NamespaceId::new(7);
    let t = TableId::new(1);
    let k = key(b"2024-01-01");

    let mut tree = BufferTree::new(PartitionCache::new(Vec::new(), 10));
    let mut batch = ColumnBatch::new();
    batch.push_row(10, 100);
    let op = SequencedOp::new(
        SequenceNumber::new(1),
        ns,
        Write { partition_key: key(b"2024-01-01"), tables: vec![TableBatch::new(t, batch)] },
    );
    tree.apply(&op);
    tree.resolve_partition(ns, t, &k, PartitionId::new(5));

    let mut wal = Wal::new();
    wal.append(&op).unwrap();
    let mut sink = WalSink::new(tree, wal);

    let (closed, jobs, _) = rotation_tick(&mut sink);
    assert_eq!(closed.id().get(), 0);
    assert_eq!(jobs.len(), 1);
    assert_eq!(jobs[0].partition_id.get(), 5);
    assert_eq!(jobs[0].max_sequence, 1);
    let total: usize = jobs[0].batches.iter().map(|b| b.row_count()).sum();
    assert_eq!(total, 1);
}

/// Two interleaved writers lose nothing: replay reconstructs every
/// operation and the set of sequence numbers is complete.
#[test]
fn concurrent_writers_no_loss() {
    let ns = NamespaceId::new(7);
    let mut wal = Wal::new();
    // Writers A and B interleave appends of their own operations.
    for i in 0..50u64 {
        for (writer, table) in [(0u64, 1u64), (1, 2)] {
            let seq = 1 + i * 2 + writer;
            let mut batch = ColumnBatch::new();
            batch.push_row(seq, seq);
            let op = SequencedOp::new(
                SequenceNumber::new(seq),
                ns,
                Write {
                    partition_key: key(b"2024-01-01"),
                    tables: vec![TableBatch::new(TableId::new(table), batch)],
                },
            );
            wal.append(&op).unwrap();
        }
    }
    wal.rotate();

    let images = wal.segment_images();
    let st = ingester_core::init::IngesterState::new(images, PartitionCache::new(Vec::new(), 10));
    let mut st = st.unwrap();
    let mut seqs = Vec::new();
    for table in [1u64, 2] {
        let tree = st.sink().inner();
        let resp = ingester_core::response::partition_response(
            tree,
            ns,
            TableId::new(table),
            &key(b"2024-01-01"),
        )
        .unwrap();
        for b in resp.into_record_batch_stream() {
            for i in 0..b.row_count() {
                seqs.push(b.time_at(i));
            }
        }
    }
    seqs.sort();
    let expected: Vec<u64> = (1..=100).collect();
    assert_eq!(seqs, expected);
}

/// The mock sink answers with its scripted results, front first, then
/// refuses once the script runs out.
#[test]
fn mock_sink_scripted_results() {
    let mk = |seq: u64| {
        let mut batch = ColumnBatch::new();
        batch.push_row(seq, seq);
        SequencedOp::new(
            SequenceNumber::new(seq),
            NamespaceId::new(1),
            Write { partition_key: key(b"k"), tables: vec![TableBatch::new(TableId::new(1), batch)] },
        )
    };
    let mut mock = ingester_core::sink::MockDmlSink::new().with_apply_return(vec![
        Ok(()),
        Err(ingester_core::sink::DmlError::Apply),
    ]);
    assert_eq!(mock.apply(&mk(1)), Ok(()));
    assert_eq!(mock.apply(&mk(2)), Err(ingester_core::sink::DmlError::Apply));
    assert_eq!(mock.apply(&mk(3)), Err(ingester_core::sink::DmlError::Apply));
    assert_eq!(mock.get_calls().len(), 3);
}
