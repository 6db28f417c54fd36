//! The write operations the ingest core moves around: a columnar batch of
//! rows per table, grouped under one partition key and one namespace, tagged
//! with a sequence number.

use vstd::prelude::*;

use crate::ids::{printable_byte, NamespaceId, PartitionKey, SequenceNumber, TableId};

verus! {

/// Mathematical model of one table's batch: parallel columns of timestamps
/// and values.
#[verifier::ext_equal]
pub ghost struct TableBatchModel {
    pub table_id: u64,
    pub times: Seq<u64>,
    pub values: Seq<u64>,
}

impl TableBatchModel {
    /// The columns hold one entry per row each.
    pub open spec fn wf(self) -> bool {
        self.times.len() == self.values.len()
    }

    /// The rows as (time, value) pairs.
    pub open spec fn rows(self) -> Seq<(u64, u64)> {
        Seq::new(self.times.len(), |i: int| (self.times[i], self.values[i]))
    }
}

/// Mathematical model of a sequenced write operation.
#[verifier::ext_equal]
pub ghost struct OpModel {
    pub sequence_number: u64,
    pub namespace_id: u64,
    pub partition_key: Seq<u8>,
    pub tables: Seq<TableBatchModel>,
}

impl OpModel {
    pub open spec fn wf(self) -> bool {
        &&& forall|i: int| 0 <= i < self.partition_key.len() ==> printable_byte(
            self.partition_key[i],
        )
        &&& forall|i: int| 0 <= i < self.tables.len() ==> self.tables[i].wf()
    }

    /// Whether every count in the operation fits the 32-bit length fields of
    /// the record encoding.
    pub open spec fn encodable(self) -> bool {
        &&& self.partition_key.len() <= u32::MAX
        &&& self.tables.len() <= u32::MAX
        &&& forall|i: int| 0 <= i < self.tables.len() ==> self.tables[i].times.len() <= u32::MAX
    }
}

/// A columnar batch of rows: a timestamp column and a value column of equal
/// length.  Merging is additive; rows keep their insertion order.
#[derive(Clone, Debug)]
pub struct ColumnBatch {
    times: Vec<u64>,
    values: Vec<u64>,
}

impl ColumnBatch {
    /// The batch as its pair of columns.
    pub closed spec fn view(&self) -> (Seq<u64>, Seq<u64>) {
        (self.times@, self.values@)
    }

    pub open spec fn wf(&self) -> bool {
        self@.0.len() == self@.1.len()
    }

    pub fn new() -> (r: Self)
        ensures
            r@.0 == Seq::<u64>::empty(),
            r@.1 == Seq::<u64>::empty(),
            r.wf(),
    {
        ColumnBatch { times: Vec::new(), values: Vec::new() }
    }

    /// Appends one row.
    pub fn push_row(&mut self, time: u64, value: u64)
        requires
            old(self).wf(),
        ensures
            final(self)@.0 == old(self)@.0.push(time),
            final(self)@.1 == old(self)@.1.push(value),
            final(self).wf(),
    {
        self.times.push(time);
        self.values.push(value);
    }

    pub fn row_count(&self) -> (r: usize)
        requires
            self.wf(),
        ensures
            r == self@.0.len(),
    {
        self.times.len()
    }

    pub fn time_at(&self, i: usize) -> (r: u64)
        requires
            self.wf(),
            i < self@.0.len(),
        ensures
            r == self@.0[i as int],
    {
        self.times[i]
    }

    pub fn value_at(&self, i: usize) -> (r: u64)
        requires
            self.wf(),
            i < self@.1.len(),
        ensures
            r == self@.1[i as int],
    {
        self.values[i]
    }

    /// The timestamp column.
    pub fn times_vec(&self) -> (r: &Vec<u64>)
        ensures
            r@ == self@.0,
    {
        &self.times
    }

    /// The value column.
    pub fn values_vec(&self) -> (r: &Vec<u64>)
        ensures
            r@ == self@.1,
    {
        &self.values
    }

    /// Builds a batch from its two columns.
    pub fn from_columns(times: Vec<u64>, values: Vec<u64>) -> (r: Self)
        requires
            times@.len() == values@.len(),
        ensures
            r@ == (times@, values@),
            r.wf(),
    {
        ColumnBatch { times, values }
    }

    /// Additive merge: appends every row of `other`, keeping existing rows
    /// and their order.
    pub fn merge(&mut self, other: &ColumnBatch)
        requires
            old(self).wf(),
            other.wf(),
        ensures
            final(self)@.0 == old(self)@.0 + other@.0,
            final(self)@.1 == old(self)@.1 + other@.1,
            final(self).wf(),
    {
        let n = other.times.len();
        let mut i: usize = 0;
        while i < n
            invariant
                n == other@.0.len(),
                n == other@.1.len(),
                i <= n,
                self@.0 == old(self)@.0 + other@.0.take(i as int),
                self@.1 == old(self)@.1 + other@.1.take(i as int),
            decreases n - i,
        {
            self.times.push(other.times[i]);
            self.values.push(other.values[i]);
            proof {
                assert(other@.0.take(i + 1) =~= other@.0.take(i as int).push(other@.0[i as int]));
                assert(other@.1.take(i + 1) =~= other@.1.take(i as int).push(other@.1[i as int]));
                assert(self@.0 =~= old(self)@.0 + other@.0.take(i + 1));
                assert(self@.1 =~= old(self)@.1 + other@.1.take(i + 1));
            }
            i += 1;
        }
        proof {
            assert(other@.0.take(n as int) =~= other@.0);
            assert(other@.1.take(n as int) =~= other@.1);
        }
    }
}

/// One table's share of a write: the table it lands in and its batch.
#[derive(Clone, Debug)]
pub struct TableBatch {
    pub table_id: TableId,
    pub batch: ColumnBatch,
}

impl TableBatch {
    pub open spec fn view(&self) -> TableBatchModel {
        TableBatchModel {
            table_id: self.table_id.0,
            times: self.batch@.0,
            values: self.batch@.1,
        }
    }

    pub open spec fn wf(&self) -> bool {
        self@.wf()
    }

    pub fn new(table_id: TableId, batch: ColumnBatch) -> (r: Self)
        requires
            batch.wf(),
        ensures
            r@.table_id == table_id.0,
            r@.times == batch@.0,
            r@.values == batch@.1,
            r.wf(),
    {
        TableBatch { table_id, batch }
    }
}

/// The batches of a write, as their models, in order.
pub open spec fn batches_view(ts: Seq<TableBatch>) -> Seq<TableBatchModel> {
    Seq::new(ts.len(), |i: int| ts[i]@)
}

/// A write: a partition key and, per table, a columnar batch of rows.
#[derive(Clone, Debug)]
pub struct Write {
    pub partition_key: PartitionKey,
    pub tables: Vec<TableBatch>,
}

impl Write {
    pub open spec fn wf(&self) -> bool {
        &&& self.partition_key.wf()
        &&& forall|i: int| 0 <= i < self.tables@.len() ==> (#[trigger] self.tables@[i]).wf()
    }

    /// The write as a sequence of table batch models.
    pub open spec fn tables_view(&self) -> Seq<TableBatchModel> {
        batches_view(self.tables@)
    }
}

/// A write tagged with its sequence number: the unit the write-ahead log
/// stores and the buffer applies.
#[derive(Clone, Debug)]
pub struct SequencedOp {
    pub sequence_number: SequenceNumber,
    pub namespace_id: NamespaceId,
    pub op: Write,
}

impl SequencedOp {
    pub open spec fn view(&self) -> OpModel {
        OpModel {
            sequence_number: self.sequence_number.0,
            namespace_id: self.namespace_id.0,
            partition_key: self.op.partition_key@,
            tables: self.op.tables_view(),
        }
    }

    pub open spec fn wf(&self) -> bool {
        self.op.wf()
    }

    pub fn new(sequence_number: SequenceNumber, namespace_id: NamespaceId, op: Write) -> (r: Self)
        ensures
            r@.sequence_number == sequence_number.0,
            r@.namespace_id == namespace_id.0,
            r@.partition_key == op.partition_key@,
            r@.tables == op.tables_view(),
            r.wf() == op.wf(),
    {
        let r = SequencedOp { sequence_number, namespace_id, op };
        proof {
            assert(r.wf() == r.op.wf());
        }
        r
    }
}

/// The operations as their models, in order.
pub open spec fn ops_view(s: Seq<SequencedOp>) -> Seq<OpModel> {
    Seq::new(s.len(), |i: int| s[i]@)
}

/// An operation's model is well formed whenever the operation is.
pub proof fn lemma_op_view_wf(op: SequencedOp)
    requires
        op.wf(),
    ensures
        op@.wf(),
{
    assert forall|i: int| 0 <= i < op@.tables.len() implies op@.tables[i].wf() by {
        assert(op.op.tables@[i].wf());
    }
}

} // verus!
