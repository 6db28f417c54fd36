//! The write path end to end: stamping, logging, buffering, restart
//! replay, torn tails, and the oracle's monotonicity.

use ingester_core::ids::{NamespaceId, PartitionKey, SequenceNumber, TableId};
use ingester_core::init::IngesterState;
use ingester_core::op::{ColumnBatch, SequencedOp, TableBatch, Write};
use ingester_core::oracle::TimestampOracle;
use ingester_core::partition_cache::PartitionCache;
use ingester_core::response::partition_response;
use ingester_core::sink::{DmlError, DmlSink, MockDmlSink, WalSink};
use ingester_core::wal::Wal;

fn key(s: &[u8]) -> PartitionKey {
    PartitionKey::new(s.to_vec()).unwrap()
}

fn write_one_row(table: u64, time: u64, value: u64) -> Write {
    let mut batch = ColumnBatch::new();
    batch.push_row(time, value);
    Write {
        partition_key: key(b"2024-01-01"),
        tables: vec![TableBatch::new(TableId::new(table), batch)],
    }
}

/// Every accepted write reappears, exactly once, after a restart replays
/// the log images.
#[test]
fn durability_across_restart() {
    let cache = PartitionCache::new(Vec::new(), 100);
    let mut st = IngesterState::new(Vec::new(), cache).unwrap();
    let ns = NamespaceId::new(7);

    let (seq_a, _) = st.write(ns, write_one_row(1, 10, 100)).unwrap();
    let (seq_b, _) = st.write(ns, write_one_row(1, 20, 200)).unwrap();
    assert_eq!(seq_a.get(), 1);
    assert_eq!(seq_b.get(), 2);

    // The buffer holds both rows before the restart.
    let rows = partition_rows(&mut st, ns, 1);
    assert_eq!(rows, vec![(10, 100), (20, 200)]);

    // Take the log images as a crash would leave them and restart.
    let images = st.sink().wal().segment_images();
    let cache = PartitionCache::new(Vec::new(), 100);
    let mut st2 = IngesterState::new(images, cache).unwrap();

    // Replay reconstructed the rows exactly once.
    let rows = partition_rows(&mut st2, ns, 1);
    assert_eq!(rows, vec![(10, 100), (20, 200)]);

    // The oracle resumes above everything replayed.
    let (seq_c, _) = st2.write(ns, write_one_row(1, 30, 300)).unwrap();
    assert_eq!(seq_c.get(), 3);
}

fn partition_rows(st: &mut IngesterState, ns: NamespaceId, table: u64) -> Vec<(u64, u64)> {
    let tree = st.sink().inner();
    let resp = partition_response(tree, ns, TableId::new(table), &key(b"2024-01-01")).unwrap();
    let mut rows = Vec::new();
    for batch in resp.into_record_batch_stream() {
        let n = batch.row_count();
        for i in 0..n {
            rows.push((batch.time_at(i), batch.value_at(i)));
        }
    }
    rows
}

/// A torn write at the tail of a segment is discarded cleanly on replay.
#[test]
fn torn_tail_tolerated() {
    let cache = PartitionCache::new(Vec::new(), 100);
    let mut st = IngesterState::new(Vec::new(), cache).unwrap();
    let ns = NamespaceId::new(7);
    st.write(ns, write_one_row(1, 10, 100)).unwrap();
    st.write(ns, write_one_row(1, 20, 200)).unwrap();

    let mut images = st.sink().wal().segment_images();
    // Truncate the final 3 bytes of the open segment file.
    let last = images.len() - 1;
    let len = images[last].1.len();
    images[last].1.truncate(len - 3);

    let cache = PartitionCache::new(Vec::new(), 100);
    let mut st2 = IngesterState::new(images, cache).unwrap();

    // Replay completes; the partial final record is absent.
    let rows = partition_rows(&mut st2, ns, 1);
    assert_eq!(rows, vec![(10, 100)]);
}

/// A corrupted record ends its segment's stream: nothing decoded past it.
#[test]
fn corrupt_record_rejected() {
    let cache = PartitionCache::new(Vec::new(), 100);
    let mut st = IngesterState::new(Vec::new(), cache).unwrap();
    let ns = NamespaceId::new(7);
    st.write(ns, write_one_row(1, 10, 100)).unwrap();

    let mut images = st.sink().wal().segment_images();
    // Flip one payload byte of the only record; the checksum catches it.
    let last = images.len() - 1;
    let len = images[last].1.len();
    images[last].1[len - 1] ^= 0xff;

    let cache = PartitionCache::new(Vec::new(), 100);
    let mut st2 = IngesterState::new(images, cache).unwrap();
    let tree = st2.sink().inner();
    assert!(partition_response(tree, ns, TableId::new(1), &key(b"2024-01-01")).is_none());
}

/// The oracle hands out strictly increasing values from its seed.
#[test]
fn oracle_monotone() {
    let mut oracle = TimestampOracle::new(10);
    let a = oracle.next().get();
    let b = oracle.next().get();
    let c = oracle.next().get();
    assert_eq!(a, 11);
    assert_eq!(b, 12);
    assert_eq!(c, 13);
    assert!(a < b && b < c);
}

/// The log-first decorator hands each committed operation to its inner
/// sink, and the log holds it afterwards.
#[test]
fn test_append() {
    let inner = MockDmlSink::new().with_apply_return(vec![Ok(())]);
    let mut wal_sink = WalSink::new(inner, Wal::new());

    let mut batch = ColumnBatch::new();
    batch.push_row(4242424242, 35);
    let op = SequencedOp::new(
        SequenceNumber::new(42),
        NamespaceId::new(42),
        Write {
            partition_key: key(b"p1"),
            tables: vec![TableBatch::new(TableId::new(44), batch)],
        },
    );
    wal_sink.apply(&op).expect("wal should not error");

    // The mock inner sink saw the call.
    assert_eq!(wal_sink.inner().get_calls().len(), 1);
    assert_eq!(wal_sink.inner().get_calls()[0].sequence_number.get(), 42);

    // The operation reads back from the log.
    let (_, wal) = wal_sink.into_parts();
    let images = wal.segment_images();
    let mut wal2 = Wal::recover(images).unwrap();
    wal2.append(&op).ok();
    let closed = {
        let mut w = wal2;
        w.rotate();
        w
    };
    let descriptors = closed.closed_segments();
    let mut found = 0;
    for d in &descriptors {
        let mut reader = closed.reader_for(d.id()).unwrap();
        while let Some(got) = reader.next_op() {
            assert_eq!(got.sequence_number.get(), 42);
            found += 1;
        }
    }
    assert_eq!(found, 2);
}

/// A mock sink with no scripted results refuses the operation but still
/// records it.
#[test]
fn mock_sink_exhausted() {
    let mut mock = MockDmlSink::new();
    let op = SequencedOp::new(SequenceNumber::new(1), NamespaceId::new(1), write_one_row(1, 1, 1));
    assert_eq!(mock.apply(&op), Err(DmlError::Apply));
    assert_eq!(mock.get_calls().len(), 1);
}

/// Writers may interleave: log order and buffer order can diverge, and a
/// replay of the log still reconstructs every operation.
#[test]
fn reordered_apply_still_replays() {
    let ns = NamespaceId::new(7);
    let mk = |seq: u64, time: u64| {
        let mut batch = ColumnBatch::new();
        batch.push_row(time, time);
        SequencedOp::new(
            SequenceNumber::new(seq),
            ns,
            Write {
                partition_key: key(b"2024-01-01"),
                tables: vec![TableBatch::new(TableId::new(1), batch)],
            },
        )
    };
    let op_a = mk(1, 10);
    let op_b = mk(2, 20);

    // Both writers win the log race in order A, B but buffer B, A.
    let mut wal = Wal::new();
    wal.append(&op_a).unwrap();
    wal.append(&op_b).unwrap();

    let images = wal.segment_images();
    let cache = PartitionCache::new(Vec::new(), 10);
    let mut st = IngesterState::new(images, cache).unwrap();
    let mut rows = partition_rows(&mut st, ns, 1);
    rows.sort();
    assert_eq!(rows, vec![(10, 10), (20, 20)]);

    // A fresh oracle continues above both, whatever order they landed in.
    let (seq, _) = st.write(ns, write_one_row(1, 30, 300)).unwrap();
    assert_eq!(seq.get(), 3);
}
