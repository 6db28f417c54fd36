//! Bringing an ingester up: recover the write-ahead log from the surviving
//! segment files, replay every record into a fresh buffer tree, seed the
//! timestamp oracle from the greatest replayed sequence number, and hand
//! back the running state.

use vstd::prelude::*;

use crate::buffer::BufferTree;
use crate::sink::DmlSink;
use crate::ids::{NamespaceId, SequenceNumber};
use crate::op::{OpModel, SequencedOp, Write};
use crate::oracle::TimestampOracle;
use crate::partition_cache::PartitionCache;
use crate::replay::{ops_rows, replay, segs_ops};
use crate::sink::{DmlError, WalSink};
use crate::wal::{max_seq_of, recovered_entry, Wal, WalInitError, WriteSummary};

verus! {

/// Why an ingester refused to start.
#[derive(Clone, Copy, Debug, PartialEq, Eq, Structural)]
pub enum InitError {
    /// The write-ahead log could not be opened over the recovered files.
    WalInit(WalInitError),
}

/// A running ingester: the apply chain over the log and the buffer tree,
/// and the oracle stamping each write.
pub struct IngesterState {
    sink: WalSink<BufferTree>,
    oracle: TimestampOracle,
}

impl IngesterState {
    pub closed spec fn sink_view(&self) -> WalSink<BufferTree> {
        self.sink
    }

    pub closed spec fn oracle_view(&self) -> TimestampOracle {
        self.oracle
    }

    pub open spec fn wf(&self) -> bool {
        self.sink_view().wf() && self.oracle_view().wf()
    }

    /// Starts an ingester over the recovered segment files and the
    /// pre-warmed partition cache.  Every surviving record is replayed into
    /// the buffer; the oracle starts above everything replayed, so every
    /// sequence number it hands out is fresh.
    pub fn new(existing: Vec<(u64, Vec<u8>)>, cache: PartitionCache) -> (r: Result<
        Self,
        InitError,
    >)
        requires
            forall|i: int| 0 <= i < existing@.len() ==> (#[trigger] existing@[i]).0 < u64::MAX,
        ensures
            match r {
                Ok(st) => {
                    &&& st.wf()
                    &&& st.sink_view().wal_view().closed_view().len() == existing@.len()
                    &&& forall|i: int| 0 <= i < existing@.len() ==> recovered_entry(
                        st.sink_view().wal_view().closed_view(),
                        (#[trigger] existing@[i]).0,
                        existing@[i].1@,
                    )
                    &&& forall|j: int| 0 <= j < st.sink_view().wal_view().closed_view().len()
                        ==> exists|i: int|
                        0 <= i < existing@.len() && existing@[i].0 == (
                        #[trigger] st.sink_view().wal_view().closed_view()[j]).id && existing@[
                        i].1@ == st.sink_view().wal_view().closed_view()[j].bytes
                    &&& st.oracle_view().watermark() == opt_max_or_zero(
                        max_seq_of(segs_ops(st.sink_view().wal_view().closed_view())),
                    )
                    &&& st.oracle_view().issued() == Set::<u64>::empty()
                    &&& forall|ns: u64, t: u64, k: Seq<u8>| #[trigger] st.sink_view().inner_view().rows(
                        ns,
                        t,
                        k,
                    ) == ops_rows(
                        segs_ops(st.sink_view().wal_view().closed_view()),
                        ns,
                        t,
                        k,
                    )
                    &&& st.sink_view().wal_view().open_ops() == Seq::<OpModel>::empty()
                    &&& (existing@.len() == 0 ==> st.sink_view().wal_view().open_id() == 0)
                },
                Err(InitError::WalInit(e)) => match e {
                    WalInitError::InvalidHeader => exists|i: int|
                        0 <= i < existing@.len() && !crate::frame::has_valid_header(
                            (#[trigger] existing@[i]).1@,
                        ),
                    WalInitError::DuplicateSegmentId => exists|i: int, j: int|
                        0 <= i < j < existing@.len() && (#[trigger] existing@[i]).0 == (
                        #[trigger] existing@[j]).0,
                },
            },
    {
        let wal = match Wal::recover(existing) {
            Ok(w) => w,
            Err(e) => {
                return Err(InitError::WalInit(e));
            },
        };
        let mut tree = BufferTree::new(cache);
        let max = replay(&wal, &mut tree);
        let high_water = match max {
            Some(m) => m,
            None => 0,
        };
        let oracle = TimestampOracle::new(high_water);
        proof {
            assert forall|ns: u64, t: u64, k: Seq<u8>| true implies #[trigger] tree.rows(
                ns,
                t,
                k,
            ) == ops_rows(segs_ops(wal.closed_view()), ns, t, k) by {
                assert(Seq::<(u64, u64)>::empty() + ops_rows(
                    segs_ops(wal.closed_view()),
                    ns,
                    t,
                    k,
                ) =~= ops_rows(segs_ops(wal.closed_view()), ns, t, k));
            }
        }
        Ok(IngesterState { sink: WalSink::new(tree, wal), oracle })
    }

    /// Accepts one write: stamps it with a fresh sequence number, commits
    /// it to the log, and buffers it.  On success the returned sequence
    /// number is strictly greater than every number this ingester has
    /// issued and everything it replayed at startup.  The write fails
    /// exactly when a count in it overflows the record encoding; the drawn
    /// sequence number is consumed either way, as a failed append's number
    /// is never reused.
    pub fn write(&mut self, namespace: NamespaceId, w: Write) -> (r: Result<
        (SequenceNumber, WriteSummary),
        DmlError,
    >)
        requires
            old(self).wf(),
            w.wf(),
            old(self).oracle_view().watermark() < u64::MAX,
        ensures
            final(self).wf(),
            match r {
                Ok(out) => {
                    &&& out.0.0 == old(self).oracle_view().watermark() + 1
                    &&& forall|v: u64| old(self).oracle_view().issued().contains(v) ==> v
                        < out.0.0
                    &&& final(self).oracle_view().watermark() == out.0.0
                    &&& final(self).sink_view().wal_view().open_ops() == old(
                        self,
                    ).sink_view().wal_view().open_ops().push(stamped(w, namespace, out.0.0))
                    &&& BufferTree::applies(
                        old(self).sink_view().inner_view(),
                        final(self).sink_view().inner_view(),
                        stamped(w, namespace, out.0.0),
                    )
                },
                Err(e) => {
                    &&& e == DmlError::Wal(crate::wal::WalAppendError::Encode)
                    &&& !crate::frame::frameable(
                        stamped(w, namespace, (old(self).oracle_view().watermark() + 1) as u64),
                    )
                    &&& final(self).oracle_view().watermark() == old(
                        self,
                    ).oracle_view().watermark() + 1
                    &&& final(self).sink_view().wal_view().open_ops() == old(
                        self,
                    ).sink_view().wal_view().open_ops()
                    &&& final(self).sink_view().inner_view() == old(
                        self,
                    ).sink_view().inner_view()
                },
            },
    {
        let seq = self.oracle.next();
        let op = SequencedOp::new(seq, namespace, w);
        proof {
            assert(op@ =~= stamped(op.op, namespace, seq.0));
        }
        match self.sink.apply(&op) {
            Ok(summary) => Ok((seq, summary)),
            Err(e) => Err(e),
        }
    }

    /// The greatest sequence number the oracle has seeded from or issued:
    /// what a caller checks against the counter's bound before a write.
    pub fn watermark(&self) -> (r: u64)
        ensures
            r == self.oracle_view().watermark(),
    {
        self.oracle.watermark_value()
    }

    /// The apply chain, for rotation-side work on the log and the buffer.
    pub fn sink(&mut self) -> (r: &mut WalSink<BufferTree>)
        ensures
            *r == old(self).sink_view(),
            final(self).sink_view() == *final(r),
            final(self).oracle_view() == old(self).oracle_view(),
    {
        &mut self.sink
    }
}

/// The model of a write once the oracle has stamped it.
pub open spec fn stamped(w: Write, namespace: NamespaceId, seq: u64) -> OpModel {
    OpModel {
        sequence_number: seq,
        namespace_id: namespace.0,
        partition_key: w.partition_key@,
        tables: w.tables_view(),
    }
}

/// A possibly-unset watermark, defaulted to zero.
pub open spec fn opt_max_or_zero(m: Option<u64>) -> u64 {
    match m {
        None => 0,
        Some(v) => v,
    }
}

} // verus!
