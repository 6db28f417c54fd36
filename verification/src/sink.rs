//! The apply chain: a sink of write operations, and the decorator that
//! commits every operation to the write-ahead log before handing it on.
//!
//! Once the log append has returned, the inner apply must run whatever the
//! caller does: the protocol at the bottom of this file is the rule a
//! cooperative executor follows to keep that region cancellation-safe.

use vstd::prelude::*;

use crate::buffer::{op_rows, op_touches, opt_max, BufferTree};
use crate::codec::encode_op_payload;
use crate::frame::{frame, frameable};
use crate::op::{OpModel, SequencedOp};
use crate::wal::{Wal, WalAppendError, WriteSummary};

verus! {

/// Why an operation was not applied.
#[derive(Clone, Copy, Debug, PartialEq, Eq, Structural)]
pub enum DmlError {
    /// The write-ahead log refused the append; the buffer is untouched.
    Wal(WalAppendError),
    /// The sink itself refused the operation.
    Apply,
}

/// A sink of sequenced write operations.
pub trait DmlSink: Sized {
    /// The sink's own validity invariant.
    spec fn sink_inv(&self) -> bool;

    /// How a successful apply relates the sink's state before and after.
    spec fn applies(pre: Self, post: Self, m: OpModel) -> bool;

    /// How a failed apply relates the sink's state before and after, and
    /// which error came back.
    spec fn errs(pre: Self, post: Self, m: OpModel, e: DmlError) -> bool;

    /// Applies one operation.
    fn apply(&mut self, op: &SequencedOp) -> (r: Result<(), DmlError>)
        requires
            old(self).sink_inv(),
            op.wf(),
        ensures
            final(self).sink_inv(),
            match r {
                Ok(()) => Self::applies(*old(self), *final(self), op@),
                Err(e) => Self::errs(*old(self), *final(self), op@, e),
            },
    ;
}

impl DmlSink for BufferTree {
    open spec fn sink_inv(&self) -> bool {
        self.wf()
    }

    /// The buffer tree applies an operation by adding exactly its rows to
    /// exactly the partitions it names, raising their high-water marks and
    /// touching nothing else.
    open spec fn applies(pre: Self, post: Self, m: OpModel) -> bool {
        &&& forall|ns: u64, t: u64, k: Seq<u8>| #[trigger] post.rows(ns, t, k) == pre.rows(
            ns,
            t,
            k,
        ) + op_rows(m, ns, t, k)
        &&& forall|ns: u64, t: u64, k: Seq<u8>| #[trigger] post.max_seen(ns, t, k) == (
        if op_touches(m, ns, t, k) {
            Some(opt_max(pre.max_seen(ns, t, k), m.sequence_number))
        } else {
            pre.max_seen(ns, t, k)
        })
        &&& forall|ns: u64, t: u64, k: Seq<u8>| #[trigger] post.completed(ns, t, k)
            == pre.completed(ns, t, k)
        &&& forall|ns: u64, t: u64, k: Seq<u8>| #[trigger] post.progress(ns, t, k)
            == pre.progress(ns, t, k)
    }

    /// Buffering is total: it never fails.
    open spec fn errs(pre: Self, post: Self, m: OpModel, e: DmlError) -> bool {
        false
    }

    fn apply(&mut self, op: &SequencedOp) -> (r: Result<(), DmlError>) {
        BufferTree::apply(self, op);
        Ok(())
    }
}

/// A sink for tests: it records every operation it is handed and answers
/// with the next scripted result.
pub struct MockDmlSink {
    calls: Vec<SequencedOp>,
    ret: Vec<Result<(), DmlError>>,
}

impl MockDmlSink {
    pub closed spec fn calls_view(&self) -> Seq<SequencedOp> {
        self.calls@
    }

    pub closed spec fn ret_view(&self) -> Seq<Result<(), DmlError>> {
        self.ret@
    }

    pub fn new() -> (r: Self)
        ensures
            r.calls_view() == Seq::<SequencedOp>::empty(),
            r.ret_view() == Seq::<Result<(), DmlError>>::empty(),
    {
        MockDmlSink { calls: Vec::new(), ret: Vec::new() }
    }

    /// Scripts the results the mock answers with, one per apply.
    pub fn with_apply_return(self, ret: Vec<Result<(), DmlError>>) -> (r: Self)
        ensures
            r.calls_view() == self.calls_view(),
            r.ret_view() == ret@,
    {
        MockDmlSink { calls: self.calls, ret }
    }

    /// The operations this mock has been asked to apply, in order.
    pub fn get_calls(&self) -> (r: &Vec<SequencedOp>)
        ensures
            r@ == self.calls_view(),
    {
        &self.calls
    }
}

impl DmlSink for MockDmlSink {
    open spec fn sink_inv(&self) -> bool {
        true
    }

    /// A successful apply records the call and consumes the front of the
    /// scripted queue, which was `Ok`.
    open spec fn applies(pre: Self, post: Self, m: OpModel) -> bool {
        &&& post.calls_view().len() == pre.calls_view().len() + 1
        &&& post.calls_view() == pre.calls_view().push(post.calls_view().last())
        &&& post.calls_view().last()@ == m
        &&& pre.ret_view().len() > 0 && pre.ret_view()[0] == Ok::<(), DmlError>(())
        &&& post.ret_view() == pre.ret_view().drop_first()
    }

    /// A failed apply still records the call; the error is the consumed
    /// front of the scripted queue, or the refusal of an exhausted script.
    open spec fn errs(pre: Self, post: Self, m: OpModel, e: DmlError) -> bool {
        &&& post.calls_view().len() == pre.calls_view().len() + 1
        &&& post.calls_view() == pre.calls_view().push(post.calls_view().last())
        &&& post.calls_view().last()@ == m
        &&& if pre.ret_view().len() > 0 {
            pre.ret_view()[0] == Err::<(), DmlError>(e) && post.ret_view()
                == pre.ret_view().drop_first()
        } else {
            e == DmlError::Apply && post.ret_view() == pre.ret_view()
        }
    }

    fn apply(&mut self, op: &SequencedOp) -> (r: Result<(), DmlError>) {
        let copy = SequencedOp::new(
            crate::ids::SequenceNumber::new(op.sequence_number.get()),
            crate::ids::NamespaceId::new(op.namespace_id.get()),
            crate::op::Write {
                partition_key: crate::buffer::clone_key(&op.op.partition_key),
                tables: clone_tables(&op.op.tables),
            },
        );
        proof {
            assert(copy@ =~= op@);
        }
        self.calls.push(copy);
        if self.ret.len() == 0 {
            proof {
                assert(self.calls@ =~= old(self).calls@.push(self.calls@.last()));
            }
            return Err(DmlError::Apply);
        }
        let out = self.ret.remove(0);
        proof {
            assert(out == old(self).ret@[0]);
            assert(self.ret@ =~= old(self).ret@.drop_first());
            assert(self.calls@ =~= old(self).calls@.push(self.calls@.last()));
            assert(self.calls@.last()@ =~= op@);
            match out {
                Ok(u) => {
                    assert(old(self).ret@[0] == Ok::<(), DmlError>(()));
                },
                Err(e) => {
                    assert(old(self).ret@[0] == Err::<(), DmlError>(e));
                },
            }
        }
        out
    }
}

/// Clones a write's table batches.
fn clone_tables(ts: &Vec<crate::op::TableBatch>) -> (r: Vec<crate::op::TableBatch>)
    requires
        forall|i: int| 0 <= i < ts@.len() ==> (#[trigger] ts@[i]).wf(),
    ensures
        crate::op::batches_view(r@) == crate::op::batches_view(ts@),
        forall|i: int| 0 <= i < r@.len() ==> (#[trigger] r@[i]).wf(),
{
    let mut r: Vec<crate::op::TableBatch> = Vec::new();
    let n = ts.len();
    let mut i: usize = 0;
    while i < n
        invariant
            n == ts@.len(),
            i <= n,
            r@.len() == i,
            forall|j: int| 0 <= j < ts@.len() ==> (#[trigger] ts@[j]).wf(),
            forall|j: int| 0 <= j < i ==> (#[trigger] r@[j])@ == ts@[j]@ && r@[j].wf(),
        decreases n - i,
    {
        let tb = &ts[i];
        let mut batch = crate::op::ColumnBatch::new();
        proof {
            assert(ts@[i as int].wf());
        }
        batch.merge(&tb.batch);
        r.push(crate::op::TableBatch::new(tb.table_id, batch));
        i += 1;
    }
    proof {
        assert(crate::op::batches_view(r@) =~= crate::op::batches_view(ts@));
    }
    r
}

/// A [`DmlSink`] decorator that appends every operation to the write-ahead
/// log and, once the append has succeeded, hands the operation to the inner
/// sink.  An append failure is the caller's: the inner sink never sees the
/// operation.  A failure of the inner sink after a successful append is
/// swallowed: the operation is durable and replay will re-apply it, so the
/// caller is still told the write succeeded.
pub struct WalSink<T> {
    inner: T,
    wal: Wal,
}

impl<T: DmlSink> WalSink<T> {
    pub closed spec fn inner_view(&self) -> T {
        self.inner
    }

    pub closed spec fn wal_view(&self) -> Wal {
        self.wal
    }

    pub open spec fn wf(&self) -> bool {
        self.inner_view().sink_inv() && self.wal_view().wf()
    }

    /// Builds the decorator over an inner sink and a log.
    pub fn new(inner: T, wal: Wal) -> (r: Self)
        ensures
            r.inner_view() == inner,
            r.wal_view() == wal,
    {
        WalSink { inner, wal }
    }

    /// Gives the log back, with the inner sink.
    pub fn into_parts(self) -> (r: (T, Wal))
        ensures
            r.0 == self.inner_view(),
            r.1 == self.wal_view(),
    {
        (self.inner, self.wal)
    }

    /// The log, read-only: for rotation-side bookkeeping and mirroring.
    pub fn wal(&self) -> (r: &Wal)
        ensures
            r == self.wal_view(),
    {
        &self.wal
    }

    /// The log, for appends the rotation side makes: rotation and deletion
    /// go through it.
    pub fn wal_mut(&mut self) -> (r: &mut Wal)
        ensures
            *r == old(self).wal_view(),
            final(self).wal_view() == *final(r),
            final(self).inner_view() == old(self).inner_view(),
    {
        &mut self.wal
    }

    /// The inner sink, for snapshot and persistence bookkeeping.
    pub fn inner_mut(&mut self) -> (r: &mut T)
        ensures
            *r == old(self).inner_view(),
            final(self).inner_view() == *final(r),
            final(self).wal_view() == old(self).wal_view(),
    {
        &mut self.inner
    }

    /// The inner sink, read-only.
    pub fn inner(&self) -> (r: &T)
        ensures
            r == self.inner_view(),
    {
        &self.inner
    }

    /// Commits one operation: appends it to the log, then applies it to the
    /// inner sink.  Success means the operation is durable in the log image
    /// and was offered to the inner sink; failure means the log refused it
    /// and the inner sink never saw it.
    pub fn apply(&mut self, op: &SequencedOp) -> (r: Result<WriteSummary, DmlError>)
        requires
            old(self).wf(),
            op.wf(),
        ensures
            final(self).wf(),
            final(self).wal_view().closed_view() == old(self).wal_view().closed_view(),
            final(self).wal_view().open_id() == old(self).wal_view().open_id(),
            match r {
                Ok(s) => {
                    &&& frameable(op@)
                    &&& final(self).wal_view().open_ops() == old(
                        self,
                    ).wal_view().open_ops().push(op@)
                    &&& final(self).wal_view().open_bytes_view() == old(
                        self,
                    ).wal_view().open_bytes_view() + frame(encode_op_payload(op@))
                    &&& s.bytes_written == 8 + encode_op_payload(op@).len()
                    &&& (T::applies(old(self).inner_view(), final(self).inner_view(), op@)
                        || exists|e: DmlError| T::errs(
                        old(self).inner_view(),
                        final(self).inner_view(),
                        op@,
                        e,
                    ))
                },
                Err(DmlError::Wal(WalAppendError::Encode)) => {
                    &&& !frameable(op@)
                    &&& final(self).wal_view() == old(self).wal_view()
                    &&& final(self).inner_view() == old(self).inner_view()
                },
                Err(DmlError::Apply) => false,
            },
    {
        let summary = match self.wal.append(op) {
            Ok(s) => s,
            Err(e) => {
                return Err(DmlError::Wal(e));
            },
        };
        // The operation is durable in the log image.  Whatever the inner
        // sink answers, the caller is told the truth about durability;
        // replay will re-apply the operation if the buffer missed it.
        let _ = self.inner.apply(op);
        Ok(summary)
    }
}

// ---------------------------------------------------------------------------
// The cancellation-safety protocol around one apply call.
// ---------------------------------------------------------------------------

/// Where one apply call stands, as its executor sees it.
#[derive(Clone, Copy, Debug, PartialEq, Eq, Structural)]
pub enum ApplyPhase {
    /// Nothing durable yet: the log append has not completed.
    BeforeAppend,
    /// The log append has completed; the buffer apply is still owed.
    AfterAppend,
    /// The call is finished.
    Done,
}

/// What reaches the executor about one apply call.
#[derive(Clone, Copy, Debug, PartialEq, Eq, Structural)]
pub enum ApplyEvent {
    /// The caller polls the call forward.
    Poll,
    /// The caller cancels the call.
    Cancel,
}

/// What the executor must do next.
#[derive(Clone, Copy, Debug, PartialEq, Eq, Structural)]
pub enum ApplyAction {
    /// Run the log append.
    RunAppend,
    /// Run the buffer apply; this must not be abandoned.
    RunApply,
    /// Drop the operation: nothing durable was written.
    Abort,
    /// Nothing left to do.
    Nothing,
}

/// The protocol's transition relation.  Before the append, a cancellation
/// aborts the call and the operation is simply not written.  After the
/// append, every event leads to the buffer apply.
pub open spec fn apply_protocol_spec(phase: ApplyPhase, event: ApplyEvent) -> (
    ApplyPhase,
    ApplyAction,
) {
    match phase {
        ApplyPhase::BeforeAppend => match event {
            ApplyEvent::Poll => (ApplyPhase::AfterAppend, ApplyAction::RunAppend),
            ApplyEvent::Cancel => (ApplyPhase::Done, ApplyAction::Abort),
        },
        ApplyPhase::AfterAppend => (ApplyPhase::Done, ApplyAction::RunApply),
        ApplyPhase::Done => (ApplyPhase::Done, ApplyAction::Nothing),
    }
}

/// One step of the protocol: what the executor does next, given where the
/// call stands and what the caller did.
pub fn apply_protocol_step(phase: ApplyPhase, event: ApplyEvent) -> (r: (
    ApplyPhase,
    ApplyAction,
))
    ensures
        r == apply_protocol_spec(phase, event),
{
    match phase {
        ApplyPhase::BeforeAppend => match event {
            ApplyEvent::Poll => (ApplyPhase::AfterAppend, ApplyAction::RunAppend),
            ApplyEvent::Cancel => (ApplyPhase::Done, ApplyAction::Abort),
        },
        ApplyPhase::AfterAppend => (ApplyPhase::Done, ApplyAction::RunApply),
        ApplyPhase::Done => (ApplyPhase::Done, ApplyAction::Nothing),
    }
}

/// Law (cancellation safety): once the append has completed, every event,
/// a cancellation included, makes the executor run the buffer apply; no
/// path out of that phase abandons the operation.
pub proof fn lemma_cancel_after_append_still_applies()
    ensures
        forall|e: ApplyEvent| (#[trigger] apply_protocol_spec(ApplyPhase::AfterAppend, e)).1
            == ApplyAction::RunApply,
{
}

} // verus!
