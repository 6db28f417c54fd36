//! Exact encodings: the record payload layout, the segment header, the
//! jitter rule, deferred slots, and the configuration defaults.

use ingester_core::codec::{check_encodable, decode_payload, encode_payload};
use ingester_core::config::{IngesterConfig, RouterRpcWriteConfig};
use ingester_core::deferred::{jitter_delay, DeferredLoad};
use ingester_core::ids::{NamespaceId, PartitionKey, SequenceNumber, TableId};
use ingester_core::name_resolver::NameResolver;
use ingester_core::op::{ColumnBatch, SequencedOp, TableBatch, Write};

fn sample_op() -> SequencedOp {
    let mut batch = ColumnBatch::new();
    batch.push_row(3, 4);
    SequencedOp::new(
        SequenceNumber::new(1),
        NamespaceId::new(2),
        Write {
            partition_key: PartitionKey::new(vec![b'p']).unwrap(),
            tables: vec![TableBatch::new(TableId::new(5), batch)],
        },
    )
}

/// The payload layout, byte for byte: little-endian ids and counts, the
/// key, then each table's id, row count and columns.
#[test]
fn payload_layout_exact() {
    let op = sample_op();
    assert!(check_encodable(&op));
    let bytes = encode_payload(&op);
    let expected: Vec<u8> = vec![
        1, 0, 0, 0, 0, 0, 0, 0, // sequence number
        2, 0, 0, 0, 0, 0, 0, 0, // namespace id
        1, 0, 0, 0,    // key length
        b'p',          // key
        1, 0, 0, 0,    // table count
        5, 0, 0, 0, 0, 0, 0, 0, // table id
        1, 0, 0, 0,    // row count
        3, 0, 0, 0, 0, 0, 0, 0, // times
        4, 0, 0, 0, 0, 0, 0, 0, // values
    ];
    assert_eq!(bytes, expected);
}

/// Decoding an encoding gives the operation back; trailing bytes are
/// refused; an unprintable key is refused.
#[test]
fn payload_round_trip() {
    let op = sample_op();
    let bytes = encode_payload(&op);
    let back = decode_payload(&bytes).unwrap();
    assert_eq!(back.sequence_number.get(), 1);
    assert_eq!(back.namespace_id.get(), 2);
    assert_eq!(back.op.partition_key.as_bytes(), &vec![b'p']);
    assert_eq!(back.op.tables.len(), 1);
    assert_eq!(back.op.tables[0].table_id.get(), 5);
    assert_eq!(back.op.tables[0].batch.row_count(), 1);
    assert_eq!(back.op.tables[0].batch.time_at(0), 3);
    assert_eq!(back.op.tables[0].batch.value_at(0), 4);

    let mut trailing = encode_payload(&op);
    trailing.push(0);
    assert!(decode_payload(&trailing).is_none());

    let mut unprintable = encode_payload(&op);
    unprintable[20] = 0x01; // the key byte
    assert!(decode_payload(&unprintable).is_none());
}

/// A partition key must be printable ASCII.
#[test]
fn partition_key_printable() {
    assert!(PartitionKey::new(vec![b'a', b'~', b' ']).is_some());
    assert!(PartitionKey::new(vec![0x1f]).is_none());
    assert!(PartitionKey::new(vec![0x7f]).is_none());
}

/// The jitter delay is a uniform pick below the bound, zero when unset.
#[test]
fn jitter_rule() {
    assert_eq!(jitter_delay(7, 5), 2);
    assert_eq!(jitter_delay(4, 5), 4);
    assert_eq!(jitter_delay(123, 0), 0);
}

/// A deferred slot moves one way: not started, loading, loaded for good.
#[test]
fn deferred_slot_one_way() {
    let mut slot: DeferredLoad<u64> = DeferredLoad::new();
    assert!(slot.needs_start());
    assert!(slot.get().is_none());
    slot.begin();
    assert!(!slot.needs_start());
    assert!(slot.get().is_none());
    slot.resolve(99);
    assert_eq!(slot.get().copied(), Some(99));
    slot.begin();
    assert_eq!(slot.get().copied(), Some(99));
}

/// The injected configuration defaults.
#[test]
fn config_defaults() {
    let r = RouterRpcWriteConfig::new();
    assert_eq!(r.http_request_limit, 200);
    assert_eq!(r.topic, "iox-shared");
    assert_eq!(r.query_pool_name, "iox-shared");
    assert!(r.new_namespace_retention_hours.is_none());
    assert!(r.ingester_addresses.is_empty());

    let c = IngesterConfig::new();
    assert_eq!(c.partition_cache_capacity, 40_000);
    assert_eq!(c.persist_workers, 5);
}

/// Name slots: the first observer starts the load, later ones join, and a
/// settled slot never changes again.
#[test]
fn name_slots_one_way() {
    let mut r = NameResolver::new();
    assert!(r.get(7).is_none());
    assert!(r.begin(7));
    assert!(!r.begin(7));
    r.resolve(7, "bananas".to_string());
    assert_eq!(r.get(7).map(|s| s.as_str()), Some("bananas"));
    r.resolve(7, "platanos".to_string());
    assert_eq!(r.get(7).map(|s| s.as_str()), Some("bananas"));
    assert!(r.get(8).is_none());
}
