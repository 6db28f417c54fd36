//! The persistence pipeline: bounded queues feeding a pool of workers,
//! each job turning one partition snapshot into one sorted columnar file,
//! and the rule that releases a write-ahead-log segment only once every
//! partition that wrote into it has persisted past it.

use vstd::prelude::*;

use crate::buffer::{batches_rows, nss_partition, opt_max, partition_op_spec, rows_of,
    triples_view, BufferTree, PartitionData, PartitionOp};
use crate::sink::WalSink;
use crate::ids::{NamespaceId, PartitionId, SegmentId, TableId, PartitionKey};
use crate::op::{ops_view, ColumnBatch, OpModel, SequencedOp};
use crate::wal::Wal;

verus! {

/// One unit of persistence work: a snapshot of one partition.
pub struct PersistJob {
    pub namespace_id: NamespaceId,
    pub table_id: TableId,
    pub partition_key: PartitionKey,
    pub partition_id: PartitionId,
    pub batches: Vec<ColumnBatch>,
    pub max_sequence: u64,
}

/// Which worker's queue a partition's jobs go to.  One partition always
/// hashes to one worker, so its jobs are worked in submission order.
pub open spec fn worker_of(pid: PartitionId, n_workers: int) -> int {
    pid.0 as int % n_workers
}

/// Picks the worker for a partition.
pub fn worker_for(pid: PartitionId, n_workers: usize) -> (r: usize)
    requires
        n_workers > 0,
    ensures
        r == worker_of(pid, n_workers as int),
        r < n_workers,
{
    (pid.0 % (n_workers as u64)) as usize
}

/// Law (persist serialisation, routing half): two jobs for the same
/// partition always land on the same worker, whatever their payloads.
pub proof fn lemma_same_partition_same_worker(a: PartitionId, b: PartitionId, n_workers: int)
    requires
        a == b,
        n_workers > 0,
    ensures
        worker_of(a, n_workers) == worker_of(b, n_workers),
{
}

/// A bounded first-in, first-out queue of persist jobs.
pub struct PersistQueue {
    jobs: Vec<PersistJob>,
    cap: usize,
}

impl PersistQueue {
    pub closed spec fn jobs_view(&self) -> Seq<PersistJob> {
        self.jobs@
    }

    pub closed spec fn cap_view(&self) -> usize {
        self.cap
    }

    pub fn new(cap: usize) -> (r: Self)
        ensures
            r.jobs_view() == Seq::<PersistJob>::empty(),
            r.cap_view() == cap,
    {
        PersistQueue { jobs: Vec::new(), cap }
    }

    pub fn len(&self) -> (r: usize)
        ensures
            r == self.jobs_view().len(),
    {
        self.jobs.len()
    }

    /// Accepts a job when there is room, else hands it back: the caller
    /// blocks on the returned job, back-pressuring the submitter.
    pub fn push_job(&mut self, job: PersistJob) -> (r: Result<(), PersistJob>)
        ensures
            final(self).cap_view() == old(self).cap_view(),
            match r {
                Ok(()) => old(self).jobs_view().len() < old(self).cap_view() && final(self).jobs_view() == old(self).jobs_view().push(job),
                Err(back) => old(self).jobs_view().len() >= old(self).cap_view() && final(self).jobs_view() == old(self).jobs_view() && back == job,
            },
    {
        if self.jobs.len() < self.cap {
            self.jobs.push(job);
            Ok(())
        } else {
            Err(job)
        }
    }

    /// The oldest job, first in, first out.
    pub fn pop_job(&mut self) -> (r: Option<PersistJob>)
        ensures
            final(self).cap_view() == old(self).cap_view(),
            match r {
                Some(job) => old(self).jobs_view().len() > 0 && job == old(self).jobs_view()[0]
                    && final(self).jobs_view() == old(self).jobs_view().drop_first(),
                None => old(self).jobs_view().len() == 0 && final(self).jobs_view() == old(self).jobs_view(),
            },
    {
        if self.jobs.len() == 0 {
            return None;
        }
        let job = self.jobs.remove(0);
        proof {
            assert(final(self).jobs_view() =~= old(self).jobs_view().drop_first());
        }
        Some(job)
    }
}

/// The pipeline's queues: one bounded submission queue in front, one
/// bounded queue per worker behind it.
pub struct PersistHandle {
    submission: PersistQueue,
    workers: Vec<PersistQueue>,
}

impl PersistHandle {
    pub closed spec fn submission_view(&self) -> Seq<PersistJob> {
        self.submission.jobs_view()
    }

    pub closed spec fn worker_views(&self) -> Seq<Seq<PersistJob>> {
        Seq::new(self.workers@.len(), |i: int| self.workers@[i].jobs_view())
    }

    pub closed spec fn n_workers(&self) -> int {
        self.workers@.len() as int
    }

    /// The submission queue's bound.
    pub closed spec fn submission_cap(&self) -> usize {
        self.submission.cap_view()
    }

    /// One worker queue's bound.
    pub closed spec fn worker_cap(&self, w: int) -> usize {
        self.workers@[w].cap_view()
    }

    pub fn new(submission_depth: usize, n_workers: usize, worker_depth: usize) -> (r: Self)
        requires
            n_workers > 0,
        ensures
            r.submission_view() == Seq::<PersistJob>::empty(),
            r.n_workers() == n_workers,
            r.submission_cap() == submission_depth,
            forall|w: int| 0 <= w < r.n_workers() ==> r.worker_views()[w] == Seq::<
                PersistJob,
            >::empty() && r.worker_cap(w) == worker_depth,
    {
        let mut workers: Vec<PersistQueue> = Vec::new();
        let mut i: usize = 0;
        while i < n_workers
            invariant
                i <= n_workers,
                workers@.len() == i,
                forall|w: int| 0 <= w < i ==> (#[trigger] workers@[w]).jobs_view() == Seq::<
                    PersistJob,
                >::empty() && workers@[w].cap_view() == worker_depth,
            decreases n_workers - i,
        {
            workers.push(PersistQueue::new(worker_depth));
            i += 1;
        }
        PersistHandle { submission: PersistQueue::new(submission_depth), workers }
    }

    /// Enqueues a job for persistence.  A full submission queue hands the
    /// job back; the submitter waits and retries, which is the pipeline's
    /// back-pressure.
    pub fn submit(&mut self, job: PersistJob) -> (r: Result<(), PersistJob>)
        ensures
            final(self).n_workers() == old(self).n_workers(),
            final(self).worker_views() == old(self).worker_views(),
            final(self).submission_cap() == old(self).submission_cap(),
            forall|w: int| 0 <= w < old(self).n_workers() ==> final(self).worker_cap(w) == old(self).worker_cap(w),
            match r {
                Ok(()) => old(self).submission_view().len() < old(self).submission_cap()
                    && final(self).submission_view() == old(self).submission_view().push(job),
                Err(back) => old(self).submission_view().len() >= old(self).submission_cap()
                    && final(self).submission_view() == old(self).submission_view() && back
                    == job,
            },
    {
        let r = self.submission.push_job(job);
        proof {
            assert(final(self).worker_views() =~= old(self).worker_views());
        }
        r
    }

    /// Moves the oldest submitted job to its worker's queue.  The worker is
    /// the partition's hash, so jobs of one partition queue up behind each
    /// other.  A full worker queue puts the job back at the front: order is
    /// kept.
    pub fn dispatch_one(&mut self) -> (r: Option<usize>)
        requires
            old(self).n_workers() > 0,
        ensures
            final(self).n_workers() == old(self).n_workers(),
            final(self).submission_cap() == old(self).submission_cap(),
            forall|w: int| 0 <= w < old(self).n_workers() ==> final(self).worker_cap(w) == old(self).worker_cap(w),
            match r {
                Some(w) => {
                    &&& old(self).submission_view().len() > 0
                    &&& w == worker_of(
                        old(self).submission_view()[0].partition_id,
                        old(self).n_workers(),
                    )
                    &&& final(self).submission_view() == old(self).submission_view().drop_first()
                    &&& final(self).worker_views()[w as int] == old(self).worker_views()[
                        w as int].push(old(self).submission_view()[0])
                    &&& forall|v: int| 0 <= v < old(self).n_workers() && v != w
                        ==> final(self).worker_views()[v] == old(self).worker_views()[v]
                },
                None => {
                    &&& final(self).submission_view() == old(self).submission_view()
                    &&& final(self).worker_views() == old(self).worker_views()
                    &&& (old(self).submission_view().len() == 0 || {
                        let w0 = worker_of(
                            old(self).submission_view()[0].partition_id,
                            old(self).n_workers(),
                        );
                        old(self).worker_views()[w0].len() >= old(self).worker_cap(w0)
                    })
                },
            },
    {
        let ghost pre = *self;
        let job = match self.submission.pop_job() {
            Some(j) => j,
            None => {
                proof {
                    assert(final(self).worker_views() =~= old(self).worker_views());
                }
                return None;
            },
        };
        let w = worker_for(job.partition_id, self.workers.len());
        let mut q = self.workers.remove(w);
        match q.push_job(job) {
            Ok(()) => {
                self.workers.insert(w, q);
                proof {
                    assert(self.workers@ =~= pre.workers@.update(w as int, q));
                    assert(final(self).worker_views()[w as int] == old(self).worker_views()[
                        w as int].push(old(self).submission_view()[0]));
                    assert forall|v: int|
                        0 <= v < old(self).n_workers() && v != w implies final(self).worker_views()[v] == old(self).worker_views()[v] by {
                        assert(self.workers@[v] == pre.workers@[v]);
                    }
                    assert forall|v: int| 0 <= v < old(self).n_workers() implies final(self).worker_cap(v) == old(self).worker_cap(v) by {
                        if v != w {
                            assert(self.workers@[v] == pre.workers@[v]);
                        }
                    }
                }
                Some(w)
            },
            Err(back) => {
                self.workers.insert(w, q);
                self.submission.jobs_insert_front(back);
                proof {
                    assert(old(self).worker_views()[w as int].len() >= old(self).worker_cap(
                        w as int,
                    ));
                    assert(self.workers@ =~= pre.workers@.update(w as int, q));
                    assert forall|v: int| 0 <= v < old(self).n_workers() implies final(self).worker_views()[v] == old(self).worker_views()[v] by {
                        if v != w {
                            assert(self.workers@[v] == pre.workers@[v]);
                        }
                    }
                    assert(final(self).worker_views() =~= old(self).worker_views());
                    assert(final(self).submission_view() =~= old(self).submission_view());
                    assert forall|v: int| 0 <= v < old(self).n_workers() implies final(self).worker_cap(v) == old(self).worker_cap(v) by {
                        if v != w {
                            assert(self.workers@[v] == pre.workers@[v]);
                        }
                    }
                }
                None
            },
        }
    }

    /// The next job for one worker, in the order its jobs were dispatched.
    pub fn next_for_worker(&mut self, w: usize) -> (r: Option<PersistJob>)
        requires
            0 <= w < old(self).n_workers(),
        ensures
            final(self).n_workers() == old(self).n_workers(),
            final(self).submission_view() == old(self).submission_view(),
            forall|v: int| 0 <= v < old(self).n_workers() && v != w ==> final(self).worker_views()[v] == old(self).worker_views()[v],
            match r {
                Some(job) => old(self).worker_views()[w as int].len() > 0 && job == old(self).worker_views()[w as int][0] && final(self).worker_views()[w as int] == old(self).worker_views()[w as int].drop_first(),
                None => old(self).worker_views()[w as int].len() == 0 && final(self).worker_views() == old(self).worker_views(),
            },
    {
        let ghost pre = *self;
        let mut q = self.workers.remove(w);
        let r = q.pop_job();
        self.workers.insert(w, q);
        proof {
            assert(self.workers@ =~= pre.workers@.update(w as int, q));
            if r is None {
                assert(final(self).worker_views() =~= old(self).worker_views());
            } else {
                assert forall|v: int|
                    0 <= v < old(self).n_workers() && v != w implies final(self).worker_views()[
                v] == old(self).worker_views()[v] by {
                    assert(self.workers@[v] == pre.workers@[v]);
                }
            }
        }
        r
    }
}

impl PersistQueue {
    /// Puts a job back at the front, undoing a pop whose dispatch found no
    /// room.
    pub fn jobs_insert_front(&mut self, job: PersistJob)
        ensures
            final(self).cap_view() == old(self).cap_view(),
            final(self).jobs_view() == seq![job] + old(self).jobs_view(),
    {
        self.jobs.insert(0, job);
        proof {
            assert(final(self).jobs_view() =~= seq![job] + old(self).jobs_view());
        }
    }
}


/// Law (persist serialisation, watermark half): recording a persisted
/// sequence number never lowers a partition's completed watermark, so the
/// watermark the catalog sees is monotone non-decreasing however jobs
/// complete.
pub proof fn lemma_persisted_mark_monotone(p: PartitionData, q: PartitionData, v: u64)
    requires
        partition_op_spec(PartitionOp::MarkPersisted(v), p, q, None),
    ensures
        q.completed_persistence_max is Some,
        q.completed_persistence_max == Some(opt_max(p.completed_persistence_max, v)),
        match p.completed_persistence_max {
            Some(m) => q.completed_persistence_max == Some(if v > m {
                v
            } else {
                m
            }),
            None => q.completed_persistence_max == Some(v),
        },
{
}

// ---------------------------------------------------------------------------
// Compaction: concatenate the snapshot batches and sort by time.
// ---------------------------------------------------------------------------

/// Rows in nondecreasing time order.
pub open spec fn sorted_by_time(s: Seq<(u64, u64)>) -> bool {
    forall|a: int, b: int| 0 <= a < b < s.len() ==> (#[trigger] s[a]).0 <= (#[trigger] s[b]).0
}

/// Flattens the batches into one row list, in batch order.
#[verifier::loop_isolation(false)]
fn gather_rows(batches: &Vec<ColumnBatch>) -> (r: Vec<(u64, u64)>)
    requires
        forall|i: int| 0 <= i < batches@.len() ==> (#[trigger] batches@[i]).wf(),
    ensures
        r@ == batches_rows(batches@),
{
    let mut r: Vec<(u64, u64)> = Vec::new();
    let n = batches.len();
    let mut i: usize = 0;
    proof {
        assert(batches@.take(0) =~= Seq::<ColumnBatch>::empty());
        assert(r@ =~= batches_rows(batches@.take(0)));
    }
    while i < n
        invariant
            i <= n,
            n == batches@.len(),
            r@ == batches_rows(batches@.take(i as int)),
        decreases n - i,
    {
        let b = &batches[i];
        proof {
            assert(batches@[i as int].wf());
        }
        let m = b.row_count();
        let mut j: usize = 0;
        let ghost base = r@;
        while j < m
            invariant
                j <= m,
                m == b@.0.len(),
                m == b@.1.len(),
                r@ == base + rows_of(b@.0, b@.1).take(j as int),
            decreases m - j,
        {
            r.push((b.time_at(j), b.value_at(j)));
            proof {
                assert(rows_of(b@.0, b@.1).take(j + 1) =~= rows_of(b@.0, b@.1).take(
                    j as int,
                ).push(rows_of(b@.0, b@.1)[j as int]));
                assert(r@ =~= base + rows_of(b@.0, b@.1).take(j + 1));
            }
            j += 1;
        }
        proof {
            assert(rows_of(b@.0, b@.1).take(m as int) =~= rows_of(b@.0, b@.1));
            assert(batches@.take(i + 1) =~= batches@.take(i as int).push(batches@[i as int]));
            lemma_batches_rows_take_snoc(batches@, i as int);
            assert(r@ =~= batches_rows(batches@.take(i + 1)));
        }
        i += 1;
    }
    proof {
        assert(batches@.take(n as int) =~= batches@);
    }
    r
}

proof fn lemma_batches_rows_take_snoc(bs: Seq<ColumnBatch>, i: int)
    requires
        0 <= i < bs.len(),
    ensures
        batches_rows(bs.take(i + 1)) == batches_rows(bs.take(i)) + rows_of(
            bs[i]@.0,
            bs[i]@.1,
        ),
    decreases i,
{
    if i == 0 {
        assert(bs.take(1) =~= seq![bs[0]]);
        assert(seq![bs[0]].drop_first() =~= Seq::<ColumnBatch>::empty());
        assert(bs.take(0) =~= Seq::<ColumnBatch>::empty());
        assert(batches_rows(Seq::<ColumnBatch>::empty()) =~= Seq::<(u64, u64)>::empty());
        assert(batches_rows(bs.take(1)) =~= rows_of(bs[0]@.0, bs[0]@.1));
        assert(batches_rows(bs.take(0)) + rows_of(bs[0]@.0, bs[0]@.1) =~= rows_of(
            bs[0]@.0,
            bs[0]@.1,
        ));
    } else {
        let d = bs.drop_first();
        lemma_batches_rows_take_snoc(d, i - 1);
        assert(bs.take(i + 1).drop_first() =~= d.take(i));
        assert(bs.take(i).drop_first() =~= d.take(i - 1));
        assert(bs.take(i + 1)[0] == bs[0]);
        assert(bs.take(i)[0] == bs[0]);
        assert(d[i - 1] == bs[i]);
        assert(rows_of(bs[0]@.0, bs[0]@.1) + (batches_rows(d.take(i - 1)) + rows_of(
            bs[i]@.0,
            bs[i]@.1,
        )) =~= (rows_of(bs[0]@.0, bs[0]@.1) + batches_rows(d.take(i - 1))) + rows_of(
            bs[i]@.0,
            bs[i]@.1,
        ));
    }
}

/// Inserts a row into a run sorted by time, after every row whose time is
/// at or below its own: rows with equal times keep their arrival order.
pub open spec fn insert_by_time(s: Seq<(u64, u64)>, x: (u64, u64)) -> Seq<(u64, u64)>
    decreases s.len(),
{
    if s.len() == 0 {
        seq![x]
    } else if s[0].0 <= x.0 {
        seq![s[0]] + insert_by_time(s.drop_first(), x)
    } else {
        seq![x] + s
    }
}

/// The stable sort of the rows by time: each row inserted, in arrival
/// order, after its equals.
pub open spec fn stable_sorted_by_time(s: Seq<(u64, u64)>) -> Seq<(u64, u64)>
    decreases s.len(),
{
    if s.len() == 0 {
        Seq::empty()
    } else {
        insert_by_time(stable_sorted_by_time(s.drop_last()), s.last())
    }
}

/// In a sorted run, the stable insertion point of `x` is right after the
/// rows at or below its time.
proof fn lemma_insert_by_time_at(s: Seq<(u64, u64)>, x: (u64, u64), p: int)
    requires
        sorted_by_time(s),
        0 <= p <= s.len(),
        forall|q: int| 0 <= q < p ==> (#[trigger] s[q]).0 <= x.0,
        forall|q: int| p <= q < s.len() ==> (#[trigger] s[q]).0 > x.0,
    ensures
        insert_by_time(s, x) == s.take(p) + seq![x] + s.skip(p),
    decreases s.len(),
{
    if p == 0 {
        if s.len() == 0 {
            assert(insert_by_time(s, x) =~= s.take(0) + seq![x] + s.skip(0));
        } else {
            assert(s[0].0 > x.0);
            assert(insert_by_time(s, x) =~= s.take(0) + seq![x] + s.skip(0));
        }
    } else {
        assert(s[0].0 <= x.0);
        let d = s.drop_first();
        assert(sorted_by_time(d)) by {
            assert forall|a: int, b: int| 0 <= a < b < d.len() implies (#[trigger] d[a]).0 <= (
            #[trigger] d[b]).0 by {
                assert(s[a + 1].0 <= s[b + 1].0);
            }
        }
        assert forall|q: int| 0 <= q < p - 1 implies (#[trigger] d[q]).0 <= x.0 by {
            assert(s[q + 1].0 <= x.0);
        }
        assert forall|q: int| p - 1 <= q < d.len() implies (#[trigger] d[q]).0 > x.0 by {
            assert(s[q + 1].0 > x.0);
        }
        lemma_insert_by_time_at(d, x, p - 1);
        assert(seq![s[0]] + (d.take(p - 1) + seq![x] + d.skip(p - 1)) =~= s.take(p) + seq![x]
            + s.skip(p));
    }
}

/// Sorts the rows by time, in place: the result is the stable sort of the
/// input, so rows with equal times keep their original order.
#[verifier::loop_isolation(false)]
#[verifier::rlimit(100)]
fn sort_rows(rows: &mut Vec<(u64, u64)>)
    ensures
        final(rows)@.len() == old(rows)@.len(),
        sorted_by_time(final(rows)@),
        final(rows)@.to_multiset() == old(rows)@.to_multiset(),
        final(rows)@ == stable_sorted_by_time(old(rows)@),
{
    let n = rows.len();
    if n == 0 {
        proof {
            assert(rows@ =~= stable_sorted_by_time(old(rows)@));
        }
        return ;
    }
    let ghost orig = old(rows)@;
    proof {
        assert(orig.take(1).drop_last() =~= Seq::<(u64, u64)>::empty());
        assert(stable_sorted_by_time(Seq::<(u64, u64)>::empty()) =~= Seq::<(u64, u64)>::empty());
        assert(insert_by_time(Seq::<(u64, u64)>::empty(), orig.take(1).last()) =~= seq![
            orig[0],
        ]);
        assert(rows@.take(1) =~= stable_sorted_by_time(orig.take(1)));
        assert(rows@.skip(1) =~= orig.skip(1));
    }
    let mut i: usize = 1;
    while i < n
        invariant
            1 <= i <= n,
            n == rows@.len(),
            n == orig.len(),
            sorted_by_time(rows@.take(i as int)),
            rows@.take(i as int) == stable_sorted_by_time(orig.take(i as int)),
            rows@.skip(i as int) == orig.skip(i as int),
            rows@.to_multiset() == old(rows)@.to_multiset(),
        decreases n - i,
    {
        let ghost before = rows@;
        let x = rows.remove(i);
        proof {
            broadcast use vstd::seq_lib::to_multiset_remove;

            assert(rows@ =~= before.remove(i as int));
            assert(rows@.take(i as int) =~= before.take(i as int));
        }
        let mut p: usize = i;
        while p > 0 && rows[p - 1].0 > x.0
            invariant
                p <= i,
                forall|q: int| p <= q < i ==> (#[trigger] rows@[q]).0 > x.0,
            decreases p,
        {
            p -= 1;
        }
        let ghost mid = rows@;
        rows.insert(p, x);
        proof {
            broadcast use vstd::seq_lib::to_multiset_insert;
            broadcast use vstd::seq_lib::group_to_multiset_ensures;

            assert(rows@ =~= mid.insert(p as int, x));
            // The same rows as before this step.
            assert(before.contains(before[i as int]));
            assert(before.to_multiset().count(before[i as int]) > 0);
            assert(rows@.to_multiset() =~= before.to_multiset());
            // The prefix one longer is sorted.
            assert forall|a: int, b: int|
                0 <= a < b < i + 1 implies (#[trigger] rows@[a]).0 <= (
            #[trigger] rows@[b]).0 by {
                if b < p {
                    assert(rows@[a] == before[a] && rows@[b] == before[b]);
                } else if b == p {
                    assert(rows@[b] == x);
                    assert(rows@[a] == before[a]);
                    if p > 0 {
                        assert(before[p - 1].0 <= x.0);
                        if a < p - 1 {
                            assert(before[a].0 <= before[p - 1].0);
                        }
                    }
                } else {
                    assert(rows@[b] == mid[b - 1]);
                    assert(mid[b - 1].0 > x.0);
                    if a < p {
                        assert(rows@[a] == before[a]);
                        if p > 0 {
                            assert(before[a].0 <= before[p - 1].0 || a == p - 1);
                            assert(before[p - 1].0 <= x.0);
                        }
                        assert(rows@[a].0 <= x.0);
                    } else if a == p {
                        assert(rows@[a] == x);
                    } else {
                        assert(rows@[a] == mid[a - 1]);
                    }
                    assert(rows@[a].0 <= rows@[b].0 || rows@[a].0 <= x.0);
                    if a > p {
                        assert(mid[a - 1].0 > x.0);
                        assert(mid[a - 1] == before[a - 1] || mid[a - 1] == before[a]);
                    }
                }
            }
            assert(sorted_by_time(rows@.take(i + 1)));
            // The new prefix is the stable insertion of the next row.
            assert(x == orig[i as int]) by {
                assert(before.skip(i as int) =~= orig.skip(i as int));
                assert(before[i as int] == before.skip(i as int)[0]);
            }
            assert(mid.take(i as int) =~= before.take(i as int));
            assert forall|q: int| 0 <= q < p implies (#[trigger] before.take(i as int)[q]).0
                <= x.0 by {
                if p > 0 {
                    assert(before[p - 1].0 <= x.0);
                    if q < p - 1 {
                        assert(before.take(i as int)[q].0 <= before.take(i as int)[p - 1].0);
                    }
                }
            }
            assert forall|q: int| p <= q < i implies (#[trigger] before.take(i as int)[q]).0
                > x.0 by {
                assert(mid[q] == before[q]);
            }
            lemma_insert_by_time_at(before.take(i as int), x, p as int);
            assert(rows@.take(i + 1) =~= before.take(i as int).take(p as int) + seq![x]
                + before.take(i as int).skip(p as int)) by {
                assert forall|q: int| 0 <= q < i + 1 implies rows@.take(i + 1)[q] == (
                before.take(i as int).take(p as int) + seq![x] + before.take(i as int).skip(
                    p as int,
                ))[q] by {
                    if q < p {
                        assert(rows@[q] == before[q]);
                    } else if q == p {
                        assert(rows@[q] == x);
                    } else {
                        assert(rows@[q] == mid[q - 1]);
                        assert(mid[q - 1] == before[q - 1]);
                    }
                }
            }
            assert(orig.take(i + 1).drop_last() =~= orig.take(i as int));
            assert(orig.take(i + 1).last() == orig[i as int]);
            assert(rows@.take(i + 1) =~= stable_sorted_by_time(orig.take(i + 1)));
            assert(rows@.skip(i + 1) =~= orig.skip(i + 1)) by {
                assert forall|q: int| 0 <= q < n - i - 1 implies #[trigger] rows@.skip(
                    i + 1,
                )[q] == orig.skip(i + 1)[q] by {
                    assert(rows@[i + 1 + q] == mid[i + q]);
                    assert(mid[i + q] == before[i + 1 + q]);
                    assert(before.skip(i as int) =~= orig.skip(i as int));
                    assert(before[i + 1 + q] == orig.skip(i as int)[q + 1]);
                }
            }
        }
        i += 1;
    }
    proof {
        assert(rows@.take(n as int) =~= rows@);
        assert(orig.take(n as int) =~= orig);
    }
}


/// Concatenates a job's snapshot batches and sorts the rows by the
/// partition's sort key, the timestamp; rows with equal timestamps stay
/// grouped by their batches' order.  The result holds exactly the rows of
/// the input, in nondecreasing time order.
pub fn compact_batches(batches: &Vec<ColumnBatch>) -> (r: ColumnBatch)
    requires
        forall|i: int| 0 <= i < batches@.len() ==> (#[trigger] batches@[i]).wf(),
    ensures
        r.wf(),
        sorted_by_time(rows_of(r@.0, r@.1)),
        rows_of(r@.0, r@.1).to_multiset() == batches_rows(batches@).to_multiset(),
        rows_of(r@.0, r@.1) == stable_sorted_by_time(batches_rows(batches@)),
{
    let mut rows = gather_rows(batches);
    sort_rows(&mut rows);
    let n = rows.len();
    let mut out = ColumnBatch::new();
    let mut i: usize = 0;
    proof {
        assert(rows_of(out@.0, out@.1) =~= rows@.take(0));
    }
    while i < n
        invariant
            i <= n,
            n == rows@.len(),
            out.wf(),
            out@.0.len() == i,
            rows_of(out@.0, out@.1) == rows@.take(i as int),
        decreases n - i,
    {
        let (t, v) = rows[i];
        out.push_row(t, v);
        proof {
            assert(rows_of(out@.0, out@.1) =~= rows@.take(i + 1));
        }
        i += 1;
    }
    proof {
        assert(rows@.take(n as int) =~= rows@);
    }
    out
}

/// The metadata blob embedded in one persisted columnar file.
#[derive(Clone, Copy, Debug, PartialEq, Eq, Structural)]
pub struct FileMetadata {
    pub namespace_id: u64,
    pub table_id: u64,
    pub partition_id: u64,
    pub min_time: u64,
    pub max_time: u64,
    pub max_sequence: u64,
    pub row_count: usize,
}

/// Builds the metadata of a compacted, time-sorted batch.  Nothing is
/// produced for an empty batch: empty partitions are not persisted.
pub fn build_metadata(
    namespace_id: NamespaceId,
    table_id: TableId,
    partition_id: PartitionId,
    batch: &ColumnBatch,
    max_sequence: u64,
) -> (r: Option<FileMetadata>)
    requires
        batch.wf(),
        sorted_by_time(rows_of(batch@.0, batch@.1)),
    ensures
        match r {
            Some(md) => {
                &&& batch@.0.len() > 0
                &&& md.namespace_id == namespace_id.0
                &&& md.table_id == table_id.0
                &&& md.partition_id == partition_id.0
                &&& md.max_sequence == max_sequence
                &&& md.row_count == batch@.0.len()
                &&& md.min_time == batch@.0[0]
                &&& md.max_time == batch@.0[batch@.0.len() - 1]
                &&& forall|i: int| 0 <= i < batch@.0.len() ==> md.min_time <= (
                #[trigger] batch@.0[i]) <= md.max_time
            },
            None => batch@.0.len() == 0,
        },
{
    let n = batch.row_count();
    if n == 0 {
        return None;
    }
    let min_time = batch.time_at(0);
    let max_time = batch.time_at(n - 1);
    proof {
        assert forall|i: int| 0 <= i < batch@.0.len() implies min_time <= (
        #[trigger] batch@.0[i]) <= max_time by {
            assert(rows_of(batch@.0, batch@.1)[i].0 == batch@.0[i]);
            if i > 0 {
                assert(rows_of(batch@.0, batch@.1)[0].0 <= rows_of(batch@.0, batch@.1)[i].0);
            }
            if i < batch@.0.len() - 1 {
                assert(rows_of(batch@.0, batch@.1)[i].0 <= rows_of(batch@.0, batch@.1)[
                    batch@.0.len() - 1].0);
            }
        }
    }
    Some(
        FileMetadata {
            namespace_id: namespace_id.0,
            table_id: table_id.0,
            partition_id: partition_id.0,
            min_time,
            max_time,
            max_sequence,
            row_count: n,
        },
    )
}

// ---------------------------------------------------------------------------
// Names: decimal ids in segment file names and object-store paths.
// ---------------------------------------------------------------------------

/// The ASCII decimal digits of `n`, most significant first.
pub open spec fn decimal(n: nat) -> Seq<u8>
    decreases n,
{
    if n < 10 {
        seq![(48 + n) as u8]
    } else {
        decimal(n / 10) + seq![(48 + n % 10) as u8]
    }
}

/// Appends the decimal digits of `n`.
pub fn push_decimal(out: &mut Vec<u8>, n: u64)
    ensures
        final(out)@ == old(out)@ + decimal(n as nat),
    decreases n,
{
    if n < 10 {
        out.push(48 + n as u8);
        proof {
            assert(final(out)@ =~= old(out)@ + decimal(n as nat));
        }
    } else {
        push_decimal(out, n / 10);
        out.push(48 + (n % 10) as u8);
        proof {
            assert(final(out)@ =~= old(out)@ + decimal(n as nat));
        }
    }
}

/// The name of a segment file: the segment id in decimal, then `.dat`.
pub open spec fn segment_file_name_spec(id: u64) -> Seq<u8> {
    decimal(id as nat) + seq![0x2eu8, 0x64u8, 0x61u8, 0x74u8]
}

/// Builds a segment's file name as ASCII bytes.
pub fn segment_file_name(id: SegmentId) -> (r: Vec<u8>)
    ensures
        r@ == segment_file_name_spec(id.0),
{
    let mut out: Vec<u8> = Vec::new();
    push_decimal(&mut out, id.0);
    out.push(0x2e);
    out.push(0x64);
    out.push(0x61);
    out.push(0x74);
    proof {
        assert(out@ =~= segment_file_name_spec(id.0));
    }
    out
}

/// The object-store path of one persisted file:
/// `<namespace>/<table>/<partition>/<uuid>.parquet`, ids in decimal, the
/// version uuid supplied by the caller as ASCII bytes.
pub open spec fn object_path_spec(ns: u64, t: u64, pid: u64, uuid: Seq<u8>) -> Seq<u8> {
    decimal(ns as nat) + seq![0x2fu8] + decimal(t as nat) + seq![0x2fu8] + decimal(pid as nat)
        + seq![0x2fu8] + uuid + seq![
        0x2eu8,
        0x70u8,
        0x61u8,
        0x72u8,
        0x71u8,
        0x75u8,
        0x65u8,
        0x74u8,
    ]
}

/// Builds the object-store path of one persisted file.
#[verifier::loop_isolation(false)]
pub fn object_path(ns: NamespaceId, t: TableId, pid: PartitionId, uuid: &Vec<u8>) -> (r: Vec<
    u8,
>)
    ensures
        r@ == object_path_spec(ns.0, t.0, pid.0, uuid@),
{
    let mut out: Vec<u8> = Vec::new();
    push_decimal(&mut out, ns.0);
    out.push(0x2f);
    push_decimal(&mut out, t.0);
    out.push(0x2f);
    push_decimal(&mut out, pid.0);
    out.push(0x2f);
    let n = uuid.len();
    let mut i: usize = 0;
    let ghost prefix = out@;
    while i < n
        invariant
            i <= n,
            n == uuid@.len(),
            out@ == prefix + uuid@.take(i as int),
        decreases n - i,
    {
        out.push(uuid[i]);
        proof {
            assert(uuid@.take(i + 1) =~= uuid@.take(i as int).push(uuid@[i as int]));
            assert(out@ =~= prefix + uuid@.take(i + 1));
        }
        i += 1;
    }
    proof {
        assert(uuid@.take(n as int) =~= uuid@);
    }
    out.push(0x2e);
    out.push(0x70);
    out.push(0x61);
    out.push(0x72);
    out.push(0x71);
    out.push(0x75);
    out.push(0x65);
    out.push(0x74);
    proof {
        assert(out@ =~= object_path_spec(ns.0, t.0, pid.0, uuid@));
    }
    out
}

// ---------------------------------------------------------------------------
// Releasing write-ahead-log segments after persistence.
// ---------------------------------------------------------------------------

/// Whether the tree's completed-persistence watermark covers `seq` for the
/// partition `(ns, t, k)`.
pub open spec fn persisted_past(tree: BufferTree, ns: u64, t: u64, k: Seq<u8>, seq: u64)
    -> bool {
    match nss_partition(tree.nss(), ns, t, k) {
        None => false,
        Some(p) => match p.completed_persistence_max {
            None => false,
            Some(m) => m >= seq,
        },
    }
}

/// Whether every partition a run of operations wrote into has persisted
/// past each of those operations: only then may the segment holding them
/// be deleted.
pub open spec fn seg_all_persisted(ops: Seq<OpModel>, tree: BufferTree) -> bool {
    forall|i: int, j: int| 0 <= i < ops.len() && 0 <= j < (#[trigger] ops[i]).tables.len()
        ==> persisted_past(
        tree,
        ops[i].namespace_id,
        (#[trigger] ops[i].tables[j]).table_id,
        ops[i].partition_key,
        ops[i].sequence_number,
    )
}

/// Checks a decoded segment against the tree's watermarks.
#[verifier::loop_isolation(false)]
fn ops_fully_persisted(ops: &Vec<SequencedOp>, tree: &BufferTree) -> (r: bool)
    requires
        tree.wf(),
        forall|i: int| 0 <= i < ops@.len() ==> (#[trigger] ops@[i]).wf(),
    ensures
        r == seg_all_persisted(ops_view(ops@), *tree),
{
    let n = ops.len();
    let mut i: usize = 0;
    while i < n
        invariant
            i <= n,
            n == ops@.len(),
            forall|a: int, b: int| 0 <= a < i && 0 <= b < (#[trigger] ops_view(
                ops@,
            )[a]).tables.len() ==> persisted_past(
                *tree,
                ops_view(ops@)[a].namespace_id,
                (#[trigger] ops_view(ops@)[a].tables[b]).table_id,
                ops_view(ops@)[a].partition_key,
                ops_view(ops@)[a].sequence_number,
            ),
        decreases n - i,
    {
        let op = &ops[i];
        proof {
            assert(ops@[i as int].wf());
        }
        let seq_no = op.sequence_number.get();
        let m = op.op.tables.len();
        let mut j: usize = 0;
        while j < m
            invariant
                i < n,
                j <= m,
                m == op.op.tables@.len(),
                forall|b: int| 0 <= b < j ==> persisted_past(
                    *tree,
                    ops_view(ops@)[i as int].namespace_id,
                    (#[trigger] ops_view(ops@)[i as int].tables[b]).table_id,
                    ops_view(ops@)[i as int].partition_key,
                    ops_view(ops@)[i as int].sequence_number,
                ),
            decreases m - j,
        {
            let tb = &op.op.tables[j];
            if !tree.is_persisted_past(
                op.namespace_id,
                tb.table_id,
                &op.op.partition_key,
                seq_no,
            ) {
                proof {
                    assert(!persisted_past(
                        *tree,
                        ops_view(ops@)[i as int].namespace_id,
                        ops_view(ops@)[i as int].tables[j as int].table_id,
                        ops_view(ops@)[i as int].partition_key,
                        ops_view(ops@)[i as int].sequence_number,
                    ));
                }
                return false;
            }
            j += 1;
        }
        i += 1;
    }
    true
}

/// Deletes every closed segment whose operations have all been persisted
/// past, and returns their ids.
///
/// Law (no premature deletion, both halves): a segment id is returned, and
/// its file deleted, only when every partition that wrote into the segment
/// has a completed-persistence watermark at or above every sequence number
/// the segment holds for it — and every closed segment meeting that
/// condition is released.  The open segment and every unpersisted closed
/// segment stay.  The ghost results index the claims: `r.1` maps each
/// released id to its old segment, `r.2` maps each surviving segment to
/// its old position, `r.3` maps each fully-persisted old segment to its
/// place in the released list.
#[verifier::loop_isolation(false)]
#[verifier::rlimit(100)]
pub fn release_persisted_segments(wal: &mut Wal, tree: &BufferTree) -> (r: (
    Vec<SegmentId>,
    Ghost<Seq<int>>,
    Ghost<Seq<int>>,
    Ghost<Map<int, int>>,
))
    requires
        old(wal).wf(),
        tree.wf(),
    ensures
        final(wal).wf(),
        final(wal).open_id() == old(wal).open_id(),
        final(wal).open_ops() == old(wal).open_ops(),
        final(wal).open_bytes_view() == old(wal).open_bytes_view(),
        r.1@.len() == r.0@.len(),
        forall|x: int| 0 <= x < r.0@.len() ==> {
            &&& 0 <= #[trigger] r.1@[x] < old(wal).closed_view().len()
            &&& old(wal).closed_view()[r.1@[x]].id == r.0@[x].0
            &&& seg_all_persisted(old(wal).closed_view()[r.1@[x]].ops(), *tree)
        },
        r.2@.len() == final(wal).closed_view().len(),
        forall|j: int| 0 <= j < r.2@.len() ==> {
            &&& 0 <= #[trigger] r.2@[j] < old(wal).closed_view().len()
            &&& final(wal).closed_view()[j] == old(wal).closed_view()[r.2@[j]]
            &&& !seg_all_persisted(old(wal).closed_view()[r.2@[j]].ops(), *tree)
        },
        forall|i: int| 0 <= i < old(wal).closed_view().len() && seg_all_persisted(
            (#[trigger] old(wal).closed_view()[i]).ops(),
            *tree,
        ) ==> {
            &&& r.3@.dom().contains(i)
            &&& 0 <= r.3@[i] < r.0@.len()
            &&& r.0@[r.3@[i]].0 == old(wal).closed_view()[i].id
        },
{
    let mut released: Vec<SegmentId> = Vec::new();
    let descriptors = wal.closed_segments();
    let ghost old_view = wal.closed_view();
    let mut rel_idx: Ghost<Seq<int>> = Ghost(Seq::empty());
    let mut kept: Ghost<Seq<int>> = Ghost(Seq::empty());
    let mut rel_of: Ghost<Map<int, int>> = Ghost(Map::empty());
    let n = descriptors.len();
    let mut i: usize = 0;
    proof {
        wal.lemma_closed_ids_sorted();
    }
    while i < n
        invariant
            i <= n,
            n == descriptors@.len(),
            n == old_view.len(),
            wal.wf(),
            wal.open_id() == old(wal).open_id(),
            wal.open_ops() == old(wal).open_ops(),
            wal.open_bytes_view() == old(wal).open_bytes_view(),
            // The surviving closed segments are the kept old ones, then
            // everything not yet examined.
            wal.closed_view().len() == kept@.len() + (n - i),
            forall|q: int| 0 <= q < kept@.len() ==> {
                &&& 0 <= #[trigger] kept@[q] < i
                &&& wal.closed_view()[q] == old_view[kept@[q]]
                &&& !seg_all_persisted(old_view[kept@[q]].ops(), *tree)
            },
            forall|q: int| kept@.len() <= q < wal.closed_view().len()
                ==> #[trigger] wal.closed_view()[q] == old_view[i + (q - kept@.len())],
            // What was released so far, and why it was allowed.
            rel_idx@.len() == released@.len(),
            forall|x: int| 0 <= x < released@.len() ==> {
                &&& 0 <= #[trigger] rel_idx@[x] < n
                &&& old_view[rel_idx@[x]].id == released@[x].0
                &&& seg_all_persisted(old_view[rel_idx@[x]].ops(), *tree)
            },
            // Every fully persisted segment among the examined ones has
            // been released.
            forall|j: int| 0 <= j < i && seg_all_persisted(
                (#[trigger] old_view[j]).ops(),
                *tree,
            ) ==> {
                &&& rel_of@.dom().contains(j)
                &&& 0 <= rel_of@[j] < released@.len()
                &&& released@[rel_of@[j]].0 == old_view[j].id
            },
        decreases n - i,
    {
        let id = descriptors[i].id();
        proof {
            assert(id.0 == old_view[i as int].id);
            assert(wal.closed_view()[kept@.len() as int] == old_view[i as int]);
        }
        let reader = match wal.reader_for(id) {
            Ok(rd) => rd,
            Err(_) => {
                proof {
                    assert(false);
                }
                unreached()
            },
        };
        proof {
            // The reader's stream is this segment's: ids are unique.
            wal.lemma_closed_ids_sorted();
            let w = choose|w: int|
                0 <= w < wal.closed_view().len() && (#[trigger] wal.closed_view()[w]).id == id.0
                    && reader@ == wal.closed_view()[w].ops();
            if w != kept@.len() {
                assert(wal.closed_view()[w].id != wal.closed_view()[kept@.len() as int].id) by {
                    if w < kept@.len() {
                        assert(wal.closed_view()[w].id < wal.closed_view()[
                            kept@.len() as int].id);
                    } else {
                        assert(wal.closed_view()[kept@.len() as int].id < wal.closed_view()[
                            w].id);
                    }
                }
            }
            assert(reader@ == old_view[i as int].ops());
        }
        let ops = reader.into_ops();
        if ops_fully_persisted(&ops, tree) {
            let ghost mid_view = wal.closed_view();
            proof {
                wal.lemma_closed_ids_sorted();
            }
            match wal.delete(id) {
                Ok(()) => {
                    proof {
                        let rem = choose|ii: int|
                            0 <= ii < mid_view.len() && (#[trigger] mid_view[ii]).id == id.0
                                && wal.closed_view() == mid_view.remove(ii);
                        if rem != kept@.len() {
                            assert(mid_view[rem].id != mid_view[kept@.len() as int].id) by {
                                if rem < kept@.len() {
                                    assert(mid_view[rem].id < mid_view[kept@.len() as int].id);
                                } else {
                                    assert(mid_view[kept@.len() as int].id < mid_view[rem].id);
                                }
                            }
                        }
                        assert(wal.closed_view() == mid_view.remove(kept@.len() as int));
                        assert forall|q: int|
                            kept@.len() <= q < wal.closed_view().len() implies #[trigger] wal.closed_view()[
                        q] == old_view[i + 1 + (q - kept@.len())] by {
                            assert(wal.closed_view()[q] == mid_view[q + 1]);
                        }
                        rel_of@ = rel_of@.insert(i as int, released@.len() as int);
                        rel_idx@ = rel_idx@.push(i as int);
                    }
                    released.push(id);
                },
                Err(e) => {
                    proof {
                        // The id names a live closed segment, not the open
                        // one: deletion cannot fail.
                        assert(old_view[i as int].id < old(wal).open_id());
                        match e {
                            crate::wal::WalDeleteError::OpenSegment => {
                                assert(false);
                            },
                            crate::wal::WalDeleteError::NotFound => {
                                assert(mid_view[kept@.len() as int].id == id.0);
                                assert(false);
                            },
                        }
                    }
                },
            }
        } else {
            proof {
                kept@ = kept@.push(i as int);
            }
        }
        i += 1;
    }
    (released, rel_idx, Ghost(kept@), rel_of)
}


/// Whether a rotation tick must persist a partition: it has rows, a
/// catalog id, and a sequence watermark to record.
pub open spec fn snapshot_eligible(p: PartitionData) -> bool {
    p.partition_id is Some && p.max_sequence_seen is Some && p.all_rows().len() > 0
}

/// One tick of the rotation task: close the open segment, then snapshot
/// every partition that has rows and a resolved catalog id into one persist
/// job each.  Every returned job carries rows and the greatest sequence
/// number of its snapshot, and every eligible partition gets a job: the
/// returned ghost map points each such partition at its job.  Partitions
/// whose id the catalog has not resolved yet wait for a later tick.
/// Partition rows are unchanged: snapshots detach, they do not drop.
#[verifier::loop_isolation(false)]
#[verifier::rlimit(100)]
pub fn rotation_tick(sink: &mut WalSink<BufferTree>) -> (r: (
    crate::wal::ClosedSegment,
    Vec<PersistJob>,
    Ghost<Map<(u64, u64, Seq<u8>), int>>,
))
    requires
        old(sink).wf(),
        old(sink).wal_view().open_id() < u64::MAX,
    ensures
        final(sink).wf(),
        r.0.id.0 == old(sink).wal_view().open_id(),
        final(sink).wal_view().closed_view() == old(sink).wal_view().closed_view().push(
            crate::wal::SegmentView {
                id: old(sink).wal_view().open_id(),
                bytes: old(sink).wal_view().open_bytes_view(),
            },
        ),
        final(sink).wal_view().open_ops() == Seq::<crate::op::OpModel>::empty(),
        forall|x: int| 0 <= x < r.1@.len() ==> {
            &&& batches_rows((#[trigger] r.1@[x]).batches@).len() > 0
            &&& match nss_partition(
                final(sink).inner_view().nss(),
                r.1@[x].namespace_id.0,
                r.1@[x].table_id.0,
                r.1@[x].partition_key@,
            ) {
                Some(p) => {
                    &&& p.partition_id == Some(r.1@[x].partition_id)
                    &&& p.all_rows() == batches_rows(r.1@[x].batches@)
                },
                None => false,
            }
        },
        forall|ns: u64, t: u64, k: Seq<u8>| match #[trigger] nss_partition(
            old(sink).inner_view().nss(),
            ns,
            t,
            k,
        ) {
            Some(p) => snapshot_eligible(p) ==> {
                &&& r.2@.dom().contains((ns, t, k))
                &&& 0 <= r.2@[(ns, t, k)] < r.1@.len()
                &&& r.1@[r.2@[(ns, t, k)]].namespace_id.0 == ns
                &&& r.1@[r.2@[(ns, t, k)]].table_id.0 == t
                &&& r.1@[r.2@[(ns, t, k)]].partition_key@ == k
                &&& r.1@[r.2@[(ns, t, k)]].max_sequence == p.max_sequence_seen.unwrap()
            },
            None => true,
        },
{
    let closed = sink.wal_mut().rotate();
    let ghost tree0 = sink.inner_view();
    let triples = sink.inner().partition_triples();
    let mut jobs: Vec<PersistJob> = Vec::new();
    let mut jw: Ghost<Map<(u64, u64, Seq<u8>), int>> = Ghost(Map::empty());
    let n = triples.len();
    let mut i: usize = 0;
    while i < n
        invariant
            i <= n,
            n == triples@.len(),
            sink.wf(),
            sink.wal_view().closed_view() == old(sink).wal_view().closed_view().push(
                crate::wal::SegmentView {
                    id: old(sink).wal_view().open_id(),
                    bytes: old(sink).wal_view().open_bytes_view(),
                },
            ),
            sink.wal_view().open_ops() == Seq::<crate::op::OpModel>::empty(),
            triples_view(triples@) == crate::buffer::nss_triples(tree0.nss()),
            // Snapshots detach: rows, ids and watermarks of every
            // partition read the same as at the tick's start.
            forall|ns: u64, t: u64, k: Seq<u8>| match #[trigger] nss_partition(
                tree0.nss(),
                ns,
                t,
                k,
            ) {
                Some(p) => match nss_partition(sink.inner_view().nss(), ns, t, k) {
                    Some(q) => q.all_rows() == p.all_rows() && q.partition_id == p.partition_id
                        && q.max_sequence_seen == p.max_sequence_seen,
                    None => false,
                },
                None => nss_partition(sink.inner_view().nss(), ns, t, k) is None,
            },
            forall|x: int| 0 <= x < jobs@.len() ==> {
                &&& batches_rows((#[trigger] jobs@[x]).batches@).len() > 0
                &&& match nss_partition(
                    sink.inner_view().nss(),
                    jobs@[x].namespace_id.0,
                    jobs@[x].table_id.0,
                    jobs@[x].partition_key@,
                ) {
                    Some(p) => {
                        &&& p.partition_id == Some(jobs@[x].partition_id)
                        &&& p.all_rows() == batches_rows(jobs@[x].batches@)
                    },
                    None => false,
                }
            },
            // Every eligible partition among the processed triples has its
            // job already.
            forall|j: int| 0 <= j < i ==> {
                let tr = #[trigger] triples_view(triples@)[j];
                match nss_partition(tree0.nss(), tr.0, tr.1, tr.2) {
                    Some(p) => snapshot_eligible(p) ==> {
                        &&& jw@.dom().contains(tr)
                        &&& 0 <= jw@[tr] < jobs@.len()
                        &&& jobs@[jw@[tr]].namespace_id.0 == tr.0
                        &&& jobs@[jw@[tr]].table_id.0 == tr.1
                        &&& jobs@[jw@[tr]].partition_key@ == tr.2
                        &&& jobs@[jw@[tr]].max_sequence == p.max_sequence_seen.unwrap()
                    },
                    None => true,
                }
            },
        decreases n - i,
    {
        let ns = triples[i].0;
        let t = triples[i].1;
        let key = &triples[i].2;
        let ghost tr = (ns.0, t.0, key@);
        proof {
            assert(triples_view(triples@)[i as int] == tr);
        }
        // The snapshot needs the partition's catalog id; an unresolved
        // partition waits for the resolver.
        let pid = match sink.inner().query_batches(ns, t, key) {
            Some((_, Some(pid), _)) => pid,
            _ => {
                proof {
                    // The partition exists but its id is unresolved, or the
                    // triple names nothing: either way it is not eligible.
                    match nss_partition(tree0.nss(), ns.0, t.0, key@) {
                        Some(p) => {
                            assert(!(p.partition_id is Some));
                        },
                        None => {},
                    }
                }
                i += 1;
                continue ;
            },
        };
        let ghost pre_tree = sink.inner_view();
        let tree = sink.inner_mut();
        match tree.snapshot_partition(ns, t, key) {
            Some((batches, max_seq)) => {
                let job = PersistJob {
                    namespace_id: ns,
                    table_id: t,
                    partition_key: crate::buffer::clone_key(key),
                    partition_id: pid,
                    batches,
                    max_sequence: max_seq,
                };
                proof {
                    assert(job.batches@ == batches@);
                    assert(job.partition_key@ == key@);
                    match nss_partition(pre_tree.nss(), ns.0, t.0, key@) {
                        Some(p) => {
                            assert(p.partition_id == Some(pid));
                            match nss_partition(sink.inner_view().nss(), ns.0, t.0, key@) {
                                Some(q) => {
                                    assert(partition_op_spec(
                                        PartitionOp::Snapshot,
                                        p,
                                        q,
                                        Some((job.batches, max_seq)),
                                    ));
                                    assert(q.partition_id == Some(pid));
                                    assert(q.all_rows() == batches_rows(job.batches@));
                                    assert(p.all_rows().len() > 0);
                                    assert(p.max_sequence_seen == Some(max_seq));
                                },
                                None => {
                                    assert(false);
                                },
                            }
                        },
                        None => {
                            assert(false);
                        },
                    }
                    assert forall|x: int| 0 <= x < jobs@.len() + 1 implies {
                        &&& batches_rows((#[trigger] jobs@.push(job)[x]).batches@).len() > 0
                        &&& match nss_partition(
                            sink.inner_view().nss(),
                            jobs@.push(job)[x].namespace_id.0,
                            jobs@.push(job)[x].table_id.0,
                            jobs@.push(job)[x].partition_key@,
                        ) {
                            Some(p) => {
                                &&& p.partition_id == Some(jobs@.push(job)[x].partition_id)
                                &&& p.all_rows() == batches_rows(jobs@.push(job)[x].batches@)
                            },
                            None => false,
                        }
                    } by {
                        if x < jobs@.len() {
                            assert(jobs@.push(job)[x] == jobs@[x]);
                            if !(jobs@[x].namespace_id.0 == ns.0 && jobs@[x].table_id.0 == t.0
                                && jobs@[x].partition_key@ == key@) {
                                assert(nss_partition(
                                    sink.inner_view().nss(),
                                    jobs@[x].namespace_id.0,
                                    jobs@[x].table_id.0,
                                    jobs@[x].partition_key@,
                                ) == nss_partition(
                                    pre_tree.nss(),
                                    jobs@[x].namespace_id.0,
                                    jobs@[x].table_id.0,
                                    jobs@[x].partition_key@,
                                ));
                            } else {
                                // A second snapshot of the same partition
                                // detaches nothing new: rows and id stay.
                                match nss_partition(pre_tree.nss(), ns.0, t.0, key@) {
                                    Some(p) => {
                                        match nss_partition(
                                            sink.inner_view().nss(),
                                            ns.0,
                                            t.0,
                                            key@,
                                        ) {
                                            Some(q) => {
                                                assert(q.all_rows() == p.all_rows());
                                                assert(q.partition_id == p.partition_id);
                                            },
                                            None => {
                                                assert(false);
                                            },
                                        }
                                    },
                                    None => {
                                        assert(false);
                                    },
                                }
                            }
                        } else {
                            assert(jobs@.push(job)[x] == job);
                        }
                    }
                    // The tick-start view of every partition is preserved
                    // through this snapshot too.
                    assert forall|nsq: u64, tq: u64, kq: Seq<u8>| match #[trigger] nss_partition(
                        tree0.nss(),
                        nsq,
                        tq,
                        kq,
                    ) {
                        Some(p) => match nss_partition(sink.inner_view().nss(), nsq, tq, kq) {
                            Some(q) => q.all_rows() == p.all_rows() && q.partition_id
                                == p.partition_id && q.max_sequence_seen == p.max_sequence_seen,
                            None => false,
                        },
                        None => nss_partition(sink.inner_view().nss(), nsq, tq, kq) is None,
                    } by {
                        if !(nsq == ns.0 && tq == t.0 && kq == key@) {
                            assert(nss_partition(sink.inner_view().nss(), nsq, tq, kq)
                                == nss_partition(pre_tree.nss(), nsq, tq, kq));
                        }
                    }
                    jw@ = jw@.insert(tr, jobs@.len() as int);
                }
                jobs.push(job);
            },
            None => {
                proof {
                    // Nothing to snapshot: the partition is not eligible.
                    match nss_partition(pre_tree.nss(), ns.0, t.0, key@) {
                        Some(p) => {
                            assert(p.all_rows().len() == 0 || p.max_sequence_seen is None);
                        },
                        None => {
                            assert(false);
                        },
                    }
                }
            },
        }
        i += 1;
    }
    proof {
        assert forall|ns: u64, t: u64, k: Seq<u8>| match #[trigger] nss_partition(
            tree0.nss(),
            ns,
            t,
            k,
        ) {
            Some(p) => snapshot_eligible(p) ==> {
                &&& jw@.dom().contains((ns, t, k))
                &&& 0 <= jw@[(ns, t, k)] < jobs@.len()
                &&& jobs@[jw@[(ns, t, k)]].namespace_id.0 == ns
                &&& jobs@[jw@[(ns, t, k)]].table_id.0 == t
                &&& jobs@[jw@[(ns, t, k)]].partition_key@ == k
                &&& jobs@[jw@[(ns, t, k)]].max_sequence == p.max_sequence_seen.unwrap()
            },
            None => true,
        } by {
            match nss_partition(tree0.nss(), ns, t, k) {
                Some(p) => {
                    if snapshot_eligible(p) {
                        crate::buffer::lemma_nss_triples_member(tree0.nss(), ns, t, k);
                        let idx = choose|idx: int|
                            0 <= idx < crate::buffer::nss_triples(tree0.nss()).len()
                                && crate::buffer::nss_triples(tree0.nss())[idx] == (ns, t, k);
                        assert(triples_view(triples@)[idx] == (ns, t, k));
                    }
                },
                None => {},
            }
        }
    }
    (closed, jobs, jw)
}

} // verus!
