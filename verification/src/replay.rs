//! Replay: on startup, stream every closed segment in creation order and
//! feed each operation straight to the buffer tree, without re-appending.
//! The greatest sequence number seen seeds the timestamp oracle.

use vstd::prelude::*;

use crate::buffer::{op_rows, BufferTree};
use crate::op::OpModel;
use crate::wal::{max_seq_of, SegmentView, Wal};

verus! {

/// The rows a run of operations, applied in order, adds to a partition.
pub open spec fn ops_rows(ops: Seq<OpModel>, ns: u64, t: u64, k: Seq<u8>) -> Seq<(u64, u64)>
    decreases ops.len(),
{
    if ops.len() == 0 {
        Seq::empty()
    } else {
        op_rows(ops[0], ns, t, k) + ops_rows(ops.drop_first(), ns, t, k)
    }
}

/// Law (durability): one more logged operation is reconstructed exactly
/// once.  What a run of operations followed by `m` rebuilds in a partition
/// is what the run alone rebuilds, extended by precisely `m`'s rows: the
/// operation appears once, at its place in the log, and never again.
pub proof fn lemma_logged_op_replayed_once(
    ops: Seq<OpModel>,
    m: OpModel,
    ns: u64,
    t: u64,
    k: Seq<u8>,
)
    ensures
        ops_rows(ops.push(m), ns, t, k) == ops_rows(ops, ns, t, k) + op_rows(m, ns, t, k),
    decreases ops.len(),
{
    if ops.len() == 0 {
        assert(ops.push(m)[0] == m);
        assert(ops.push(m).drop_first() =~= Seq::<OpModel>::empty());
        assert(ops_rows(Seq::<OpModel>::empty(), ns, t, k) =~= Seq::<(u64, u64)>::empty());
        assert(ops_rows(ops.push(m), ns, t, k) =~= op_rows(m, ns, t, k));
        assert(ops_rows(ops, ns, t, k) + op_rows(m, ns, t, k) =~= op_rows(m, ns, t, k));
    } else {
        assert(ops.push(m)[0] == ops[0]);
        assert(ops.push(m).drop_first() =~= ops.drop_first().push(m));
        lemma_logged_op_replayed_once(ops.drop_first(), m, ns, t, k);
        assert(op_rows(ops[0], ns, t, k) + (ops_rows(ops.drop_first(), ns, t, k) + op_rows(
            m,
            ns,
            t,
            k,
        )) =~= (op_rows(ops[0], ns, t, k) + ops_rows(ops.drop_first(), ns, t, k)) + op_rows(
            m,
            ns,
            t,
            k,
        ));
    }
}

/// The operations of a run of segments, in segment order then record order.
pub open spec fn segs_ops(svs: Seq<SegmentView>) -> Seq<OpModel>
    decreases svs.len(),
{
    if svs.len() == 0 {
        Seq::empty()
    } else {
        svs[0].ops() + segs_ops(svs.drop_first())
    }
}

proof fn lemma_segs_ops_snoc(svs: Seq<SegmentView>, a: int)
    requires
        0 <= a < svs.len(),
    ensures
        segs_ops(svs.take(a + 1)) == segs_ops(svs.take(a)) + svs[a].ops(),
    decreases a,
{
    if a == 0 {
        assert(svs.take(1) =~= seq![svs[0]]);
        assert(seq![svs[0]].drop_first() =~= Seq::<SegmentView>::empty());
        assert(svs.take(0) =~= Seq::<SegmentView>::empty());
        assert(segs_ops(Seq::<SegmentView>::empty()) =~= Seq::<OpModel>::empty());
        assert(segs_ops(svs.take(1)) =~= svs[0].ops());
        assert(segs_ops(svs.take(0)) + svs[0].ops() =~= svs[0].ops());
    } else {
        let d = svs.drop_first();
        lemma_segs_ops_snoc(d, a - 1);
        assert(svs.take(a + 1).drop_first() =~= d.take(a));
        assert(svs.take(a).drop_first() =~= d.take(a - 1));
        assert(svs.take(a + 1)[0] == svs[0]);
        assert(svs.take(a)[0] == svs[0]);
        assert(d[a - 1] == svs[a]);
        assert(svs[0].ops() + (segs_ops(d.take(a - 1)) + svs[a].ops()) =~= (svs[0].ops()
            + segs_ops(d.take(a - 1))) + svs[a].ops());
    }
}

proof fn lemma_segs_ops_push(svs: Seq<SegmentView>, sv: SegmentView)
    ensures
        segs_ops(svs.push(sv)) == segs_ops(svs) + sv.ops(),
{
    let p = svs.push(sv);
    lemma_segs_ops_snoc(p, svs.len() as int);
    assert(p.take(svs.len() as int) =~= svs);
    assert(p.take(svs.len() as int + 1) =~= p);
}

/// Law (durability): the log image replays to exactly what was appended.
/// Take a log's segments together with its open segment, as a crash or a
/// rotation leaves them on disk: replaying them reconstructs the closed
/// segments' operations followed by precisely the operations appended to
/// the open segment, each once, in append order.
pub proof fn lemma_log_image_replays_appends(w: Wal)
    requires
        w.wf(),
    ensures
        segs_ops(
            w.closed_view().push(SegmentView { id: w.open_id(), bytes: w.open_bytes_view() }),
        ) == segs_ops(w.closed_view()) + w.open_ops(),
{
    let sv = SegmentView { id: w.open_id(), bytes: w.open_bytes_view() };
    lemma_segs_ops_push(w.closed_view(), sv);
    w.lemma_open_parses_back();
}

/// Streams every closed segment of the log, oldest first, and applies each
/// operation to the buffer tree; returns the greatest sequence number seen.
/// Each logged operation lands in the buffer exactly once, in log order; no
/// persistence watermark moves.
#[verifier::loop_isolation(false)]
#[verifier::rlimit(60)]
pub fn replay(wal: &Wal, tree: &mut BufferTree) -> (r: Option<u64>)
    requires
        wal.wf(),
        old(tree).wf(),
    ensures
        final(tree).wf(),
        forall|ns: u64, t: u64, k: Seq<u8>| #[trigger] final(tree).rows(ns, t, k) == old(
            tree,
        ).rows(ns, t, k) + ops_rows(segs_ops(wal.closed_view()), ns, t, k),
        forall|ns: u64, t: u64, k: Seq<u8>| #[trigger] final(tree).completed(ns, t, k) == old(
            tree,
        ).completed(ns, t, k),
        forall|ns: u64, t: u64, k: Seq<u8>| #[trigger] final(tree).progress(ns, t, k) == old(
            tree,
        ).progress(ns, t, k),
        r == max_seq_of(segs_ops(wal.closed_view())),
{
    let ghost svs = wal.closed_view();
    let mut done: Ghost<Seq<OpModel>> = Ghost(Seq::empty());
    let mut max: Option<u64> = None;
    let segments = wal.closed_segments();
    let n = segments.len();
    let mut a: usize = 0;
    proof {
        assert(svs.take(0) =~= Seq::<SegmentView>::empty());
        assert(segs_ops(svs.take(0)) =~= Seq::<OpModel>::empty());
        assert forall|ns: u64, t: u64, k: Seq<u8>| true implies #[trigger] tree.rows(ns, t, k)
            == old(tree).rows(ns, t, k) + ops_rows(done@, ns, t, k) by {
            assert(old(tree).rows(ns, t, k) + Seq::<(u64, u64)>::empty() =~= old(tree).rows(
                ns,
                t,
                k,
            ));
        }
    }
    while a < n
        invariant
            a <= n,
            n == segments@.len(),
            n == svs.len(),
            tree.wf(),
            done@ == segs_ops(svs.take(a as int)),
            max == max_seq_of(done@),
            forall|ns: u64, t: u64, k: Seq<u8>| #[trigger] tree.rows(ns, t, k) == old(
                tree,
            ).rows(ns, t, k) + ops_rows(done@, ns, t, k),
            forall|ns: u64, t: u64, k: Seq<u8>| #[trigger] tree.completed(ns, t, k) == old(
                tree,
            ).completed(ns, t, k),
            forall|ns: u64, t: u64, k: Seq<u8>| #[trigger] tree.progress(ns, t, k) == old(
                tree,
            ).progress(ns, t, k),
        decreases n - a,
    {
        let id = segments[a].id();
        proof {
            assert(segments@[a as int].id.0 == svs[a as int].id);
        }
        let mut reader = match wal.reader_for(id) {
            Ok(rd) => rd,
            Err(_) => {
                proof {
                    assert(false);
                }
                unreached()
            },
        };
        proof {
            wal.lemma_closed_ids_sorted();
            let w = choose|i: int|
                0 <= i < svs.len() && (#[trigger] svs[i]).id == id.0 && reader@ == svs[i].ops();
            if w != a {
                assert(svs[w].id != svs[a as int].id) by {
                    if w < a {
                        assert(wal.closed_view()[w].id < wal.closed_view()[a as int].id);
                    } else {
                        assert(wal.closed_view()[a as int].id < wal.closed_view()[w].id);
                    }
                }
            }
            assert(reader@ == svs[a as int].ops());
        }
        let ghost seg_ops = svs[a as int].ops();
        let mut cnt_exec: Ghost<int> = Ghost(0);
        while reader.remaining() > 0
            invariant
                tree.wf(),
                reader.wf(),
                0 <= cnt_exec@ <= seg_ops.len(),
                reader@ == seg_ops.skip(cnt_exec@),
                done@ == segs_ops(svs.take(a as int)) + seg_ops.take(cnt_exec@),
                max == max_seq_of(done@),
                forall|ns: u64, t: u64, k: Seq<u8>| #[trigger] tree.rows(ns, t, k) == old(
                    tree,
                ).rows(ns, t, k) + ops_rows(done@, ns, t, k),
                forall|ns: u64, t: u64, k: Seq<u8>| #[trigger] tree.completed(ns, t, k) == old(
                    tree,
                ).completed(ns, t, k),
                forall|ns: u64, t: u64, k: Seq<u8>| #[trigger] tree.progress(ns, t, k) == old(
                    tree,
                ).progress(ns, t, k),
            decreases reader@.len(),
        {
            let op = match reader.next_op() {
                Some(op) => op,
                None => {
                    proof {
                        assert(false);
                    }
                    unreached()
                },
            };
            proof {
                assert(op@ == seg_ops.skip(cnt_exec@)[0]);
                assert(op@ == seg_ops[cnt_exec@]);
            }
            let ghost done_before = done@;
            let s = op.sequence_number.get();
            max = match max {
                None => Some(s),
                Some(m) => if s > m {
                    Some(s)
                } else {
                    Some(m)
                },
            };
            tree.apply(&op);
            proof {
                done@ = done_before.push(op@);
                assert(done@.drop_last() =~= done_before);
                assert(done@.last() == op@);
                assert(seg_ops.take(cnt_exec@ + 1) =~= seg_ops.take(cnt_exec@).push(
                    seg_ops[cnt_exec@],
                ));
                assert(done@ =~= segs_ops(svs.take(a as int)) + seg_ops.take(cnt_exec@ + 1));
                assert(reader@ =~= seg_ops.skip(cnt_exec@ + 1));
                cnt_exec@ = cnt_exec@ + 1;
                assert forall|ns: u64, t: u64, k: Seq<u8>| true implies #[trigger] tree.rows(
                    ns,
                    t,
                    k,
                ) == old(tree).rows(ns, t, k) + ops_rows(done@, ns, t, k) by {
                    lemma_logged_op_replayed_once(done_before, op@, ns, t, k);
                    assert(tree.rows(ns, t, k) == (old(tree).rows(ns, t, k) + ops_rows(
                        done_before,
                        ns,
                        t,
                        k,
                    )) + op_rows(op@, ns, t, k));
                    assert((old(tree).rows(ns, t, k) + ops_rows(done_before, ns, t, k))
                        + op_rows(op@, ns, t, k) =~= old(tree).rows(ns, t, k) + (ops_rows(
                        done_before,
                        ns,
                        t,
                        k,
                    ) + op_rows(op@, ns, t, k)));
                }
            }
        }
        proof {
            assert(seg_ops.skip(cnt_exec@) =~= Seq::<OpModel>::empty());
            assert(seg_ops.take(cnt_exec@) =~= seg_ops);
            lemma_segs_ops_snoc(svs, a as int);
            assert(done@ =~= segs_ops(svs.take(a + 1)));
        }
        a += 1;
    }
    proof {
        assert(svs.take(n as int) =~= svs);
    }
    max
}

} // verus!
