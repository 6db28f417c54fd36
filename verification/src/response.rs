//! Per-partition data of one query response: the batches a reader merges,
//! the partition's id, and how far persistence has got.

use vstd::prelude::*;

use crate::buffer::{batches_rows, nss_partition, BufferTree};
use crate::ids::{NamespaceId, PartitionId, SequenceNumber, TableId, PartitionKey};
use crate::op::ColumnBatch;

verus! {

/// Response data for a single partition.
pub struct PartitionResponse {
    batches: Vec<ColumnBatch>,
    id: Option<PartitionId>,
    max_persisted_sequence_number: Option<SequenceNumber>,
}

impl PartitionResponse {
    pub closed spec fn batches_view(&self) -> Seq<ColumnBatch> {
        self.batches@
    }

    pub closed spec fn id_view(&self) -> Option<PartitionId> {
        self.id
    }

    pub closed spec fn max_persisted_view(&self) -> Option<SequenceNumber> {
        self.max_persisted_sequence_number
    }

    pub fn new(
        batches: Vec<ColumnBatch>,
        id: Option<PartitionId>,
        max_persisted_sequence_number: Option<SequenceNumber>,
    ) -> (r: Self)
        ensures
            r.batches_view() == batches@,
            r.id_view() == id,
            r.max_persisted_view() == max_persisted_sequence_number,
    {
        PartitionResponse { batches, id, max_persisted_sequence_number }
    }

    pub fn id(&self) -> (r: Option<PartitionId>)
        ensures
            r == self.id_view(),
    {
        self.id
    }

    pub fn max_persisted_sequence_number(&self) -> (r: Option<SequenceNumber>)
        ensures
            r == self.max_persisted_view(),
    {
        self.max_persisted_sequence_number
    }

    /// Hands the batches over to the reader that streams them out.
    pub fn into_record_batch_stream(self) -> (r: Vec<ColumnBatch>)
        ensures
            r@ == self.batches_view(),
    {
        self.batches
    }
}

/// Builds the response for one partition of the buffer tree: a copy of its
/// unpersisted rows and its persistence watermark.
pub fn partition_response(
    tree: &BufferTree,
    ns: NamespaceId,
    t: TableId,
    key: &PartitionKey,
) -> (r: Option<PartitionResponse>)
    requires
        tree.wf(),
    ensures
        match nss_partition(tree.nss(), ns.0, t.0, key@) {
            None => r is None,
            Some(p) => match r {
                Some(resp) => {
                    &&& batches_rows(resp.batches_view()) == p.all_rows()
                    &&& resp.id_view() == p.partition_id
                    &&& match resp.max_persisted_view() {
                        Some(s) => p.completed_persistence_max == Some(s.0),
                        None => p.completed_persistence_max is None,
                    }
                },
                None => false,
            },
        },
{
    match tree.query_batches(ns, t, key) {
        Some((batches, id, completed)) => {
            let max_persisted = match completed {
                Some(v) => Some(SequenceNumber(v)),
                None => None,
            };
            Some(PartitionResponse::new(batches, id, max_persisted))
        },
        None => None,
    }
}

} // verus!
