//! End-to-end exercises of the write-ahead log: appends, rotation,
//! deletion, restart recovery, and segment-id ordering.

use ingester_core::ids::{NamespaceId, PartitionKey, SequenceNumber, TableId};
use ingester_core::op::{ColumnBatch, SequencedOp, TableBatch, Write};
use ingester_core::wal::{Wal, WalDeleteError, WalInitError, WalReadError};

fn arbitrary_sequenced_op(sequence_number: u64) -> SequencedOp {
    let key = PartitionKey::new(vec![b'p', b'1']).unwrap();
    let mut batch = ColumnBatch::new();
    batch.push_row(1, 1);
    let tables = vec![TableBatch::new(TableId::new(44), batch)];
    SequencedOp::new(
        SequenceNumber::new(sequence_number),
        NamespaceId::new(42),
        Write { partition_key: key, tables },
    )
}

#[test]
fn crud() {
    let mut wal = Wal::new();

    // Just-created logs have no closed segments.
    assert!(wal.closed_segments().is_empty());

    // Can write an entry to the open segment.  The record is 8 bytes of
    // framing plus a 54-byte payload; the segment starts with a 12-byte
    // header.
    let op = arbitrary_sequenced_op(42);
    let summary = wal.append(&op).unwrap();
    assert_eq!(summary.total_bytes, 74);
    assert_eq!(summary.bytes_written, 62);

    // Can write another entry; total_bytes accumulates.
    let op = arbitrary_sequenced_op(43);
    let summary = wal.append(&op).unwrap();
    assert_eq!(summary.total_bytes, 136);
    assert_eq!(summary.bytes_written, 62);

    // Still no closed segments.
    assert!(wal.closed_segments().is_empty());

    // Can't read entries from the open segment; have to rotate first.
    let closed_segment_details = wal.rotate();
    assert_eq!(closed_segment_details.size(), 136);
    assert_eq!(
        closed_segment_details.max_sequence().map(|s| s.get()),
        Some(43)
    );

    // There's one closed segment.
    let closed = wal.closed_segments();
    let ids: Vec<_> = closed.iter().map(|c| c.id()).collect();
    assert_eq!(ids, vec![closed_segment_details.id()]);

    // Can read the written entries from the closed segment.
    let mut reader = wal.reader_for(closed_segment_details.id()).unwrap();
    let op = reader.next_op().unwrap();
    assert_eq!(op.sequence_number.get(), 42);
    let op = reader.next_op().unwrap();
    assert_eq!(op.sequence_number.get(), 43);
    assert!(reader.next_op().is_none());

    // Can delete a segment, leaving no closed segments again.
    wal.delete(closed_segment_details.id()).unwrap();
    assert!(wal.closed_segments().is_empty());

    // Deleting it again, or the open segment, is refused.
    assert_eq!(
        wal.delete(closed_segment_details.id()),
        Err(WalDeleteError::NotFound)
    );
    assert_eq!(
        wal.delete(wal.open_segment_id()),
        Err(WalDeleteError::OpenSegment)
    );
    assert!(matches!(
        wal.reader_for(closed_segment_details.id()),
        Err(WalReadError::NotFound)
    ));
}

#[test]
fn replay() {
    // Create a log with an entry, rotate to close the segment, create
    // another entry, then take the file images as a crash would leave them.
    let images = {
        let mut wal = Wal::new();
        wal.append(&arbitrary_sequenced_op(42)).unwrap();
        wal.rotate();
        wal.append(&arbitrary_sequenced_op(43)).unwrap();
        wal.segment_images()
    };

    // A new log over the same files treats every file as closed.
    let wal = Wal::recover(images).unwrap();
    let closed = wal.closed_segments();
    assert_eq!(closed.len(), 2);

    // Can read the written entries from the previously closed segment.
    let mut reader = wal.reader_for(closed[0].id()).unwrap();
    assert_eq!(reader.next_op().unwrap().sequence_number.get(), 42);

    // Can read the written entries from the previously open segment.
    let mut reader = wal.reader_for(closed[1].id()).unwrap();
    assert_eq!(reader.next_op().unwrap().sequence_number.get(), 43);
}

#[test]
fn ordering() {
    // Create a log with two closed segments and an open segment.
    let images = {
        let mut wal = Wal::new();
        wal.append(&arbitrary_sequenced_op(42)).unwrap();
        wal.rotate();
        wal.append(&arbitrary_sequenced_op(43)).unwrap();
        wal.rotate();
        wal.append(&arbitrary_sequenced_op(44)).unwrap();
        wal.segment_images()
    };

    // The recovered segments are in creation order.
    let mut wal = Wal::recover(images).unwrap();
    let ids: Vec<u64> = wal.closed_segments().iter().map(|c| c.id().get()).collect();
    assert_eq!(ids, vec![0, 1, 2]);

    // The open segment is next in order, and new files later still.
    assert_eq!(wal.rotate().id().get(), 3);
    assert_eq!(wal.rotate().id().get(), 4);
}

#[test]
fn recover_refuses_bad_files() {
    // A file that does not start with the segment magic is refused.
    let garbage = vec![(0u64, vec![1u8, 2, 3, 4, 5, 6, 7, 8, 9, 10, 11, 12])];
    assert!(matches!(
        Wal::recover(garbage),
        Err(WalInitError::InvalidHeader)
    ));
}

#[test]
fn recover_refuses_duplicate_ids() {
    let mut wal = Wal::new();
    wal.append(&arbitrary_sequenced_op(1)).unwrap();
    let images = wal.segment_images();
    let copy = images[0].clone();
    let mut doubled = images;
    doubled.push(copy);
    assert!(matches!(
        Wal::recover(doubled),
        Err(WalInitError::DuplicateSegmentId)
    ));
}
