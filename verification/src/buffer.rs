//! The buffer tree: an in-memory index namespace → table → partition, each
//! partition holding a mutable columnar buffer, detached immutable
//! snapshots awaiting persistence, and its persistence watermarks.
//!
//! Lookups run on nested maps keyed by id, id and partition key; nodes are
//! created lazily on first write and live for the instance's life.

use vstd::prelude::*;

use crate::ids::{NamespaceId, PartitionId, TableId, PartitionKey};
use crate::op::{ColumnBatch, OpModel, SequencedOp, TableBatchModel};
use crate::partition_cache::PartitionCache;

verus! {

/// The rows two parallel columns denote, as (time, value) pairs.
pub open spec fn rows_of(times: Seq<u64>, values: Seq<u64>) -> Seq<(u64, u64)> {
    Seq::new(times.len(), |i: int| (times[i], values[i]))
}

/// The greater of a possibly-unset watermark and a new sequence number.
pub open spec fn opt_max(m: Option<u64>, s: u64) -> u64 {
    match m {
        None => s,
        Some(v) => if s > v {
            s
        } else {
            v
        },
    }
}

/// One detached, immutable snapshot of a partition's buffer, tagged with
/// the greatest sequence number its rows carry.
pub struct SnapshotEntry {
    pub batch: ColumnBatch,
    pub max_seq: Option<u64>,
}

/// The rows of the snapshot entries, concatenated in snapshot order.
pub open spec fn snaps_rows(s: Seq<SnapshotEntry>) -> Seq<(u64, u64)>
    decreases s.len(),
{
    if s.len() == 0 {
        Seq::empty()
    } else {
        rows_of(s[0].batch@.0, s[0].batch@.1) + snaps_rows(s.drop_first())
    }
}

/// One partition's state: its key, its catalog id once resolved, the
/// mutable buffer, the detached snapshots, and the watermarks.
pub struct PartitionData {
    pub partition_key: PartitionKey,
    pub partition_id: Option<PartitionId>,
    pub buffer: ColumnBatch,
    pub snapshots: Vec<SnapshotEntry>,
    pub max_sequence_seen: Option<u64>,
    pub completed_persistence_max: Option<u64>,
    pub in_progress_persistence_max: Option<u64>,
}

impl PartitionData {
    pub open spec fn wf(&self) -> bool {
        &&& self.partition_key.wf()
        &&& self.buffer.wf()
        &&& forall|i: int| 0 <= i < self.snapshots@.len() ==> (#[trigger] self.snapshots@[
            i]).batch.wf()
    }

    /// Every row the partition still holds in memory: the snapshots not yet
    /// persisted, then the mutable buffer.
    pub open spec fn all_rows(&self) -> Seq<(u64, u64)> {
        snaps_rows(self.snapshots@) + rows_of(self.buffer@.0, self.buffer@.1)
    }
}

/// The first partition with this key, if any.
pub open spec fn find_part(s: Seq<PartitionData>, k: Seq<u8>) -> Option<PartitionData>
    decreases s.len(),
{
    if s.len() == 0 {
        None
    } else if s[0].partition_key@ == k {
        Some(s[0])
    } else {
        find_part(s.drop_first(), k)
    }
}

/// No two partitions share a key.
pub open spec fn unique_part_keys(s: Seq<PartitionData>) -> bool {
    forall|a: int, b: int| 0 <= a < b < s.len() ==> (#[trigger] s[a]).partition_key@ != (
    #[trigger] s[b]).partition_key@
}

pub open spec fn parts_wf(s: Seq<PartitionData>) -> bool {
    &&& unique_part_keys(s)
    &&& forall|i: int| 0 <= i < s.len() ==> (#[trigger] s[i]).wf()
}

/// Replacing the partition at `i` by one with the same key moves every
/// lookup of that key to the replacement and no other.
proof fn lemma_find_part_update(s: Seq<PartitionData>, i: int, e: PartitionData, k: Seq<u8>)
    requires
        unique_part_keys(s),
        0 <= i < s.len(),
        e.partition_key@ == s[i].partition_key@,
    ensures
        find_part(s.update(i, e), k) == (if k == e.partition_key@ {
            Some(e)
        } else {
            find_part(s, k)
        }),
    decreases s.len(),
{
    if i == 0 {
        assert(s.update(0, e)[0] == e);
        assert(s.update(0, e).drop_first() =~= s.drop_first());
    } else {
        assert(s.update(i, e)[0] == s[0]);
        if s[0].partition_key@ == k {
            assert(s[0].partition_key@ != s[i].partition_key@);
        } else {
            assert(s.update(i, e).drop_first() =~= s.drop_first().update(i - 1, e));
            assert(unique_part_keys(s.drop_first())) by {
                assert forall|a: int, b: int|
                    0 <= a < b < s.drop_first().len() implies (#[trigger] s.drop_first()[
                a]).partition_key@ != (#[trigger] s.drop_first()[b]).partition_key@ by {
                    assert(s[a + 1].partition_key@ != s[b + 1].partition_key@);
                }
            }
            lemma_find_part_update(s.drop_first(), i - 1, e, k);
        }
    }
}

/// Appending a partition with a fresh key adds exactly that lookup.
proof fn lemma_find_part_push(s: Seq<PartitionData>, e: PartitionData, k: Seq<u8>)
    ensures
        find_part(s.push(e), k) == (match find_part(s, k) {
            Some(p) => Some(p),
            None => if e.partition_key@ == k {
                Some(e)
            } else {
                None
            },
        }),
    decreases s.len(),
{
    if s.len() == 0 {
        assert(s.push(e)[0] == e);
        assert(s.push(e).drop_first() =~= Seq::<PartitionData>::empty());
    } else {
        assert(s.push(e)[0] == s[0]);
        assert(s.push(e).drop_first() =~= s.drop_first().push(e));
        lemma_find_part_push(s.drop_first(), e, k);
    }
}

/// The rows held for a key: none when the partition does not exist.
pub open spec fn parts_rows(s: Seq<PartitionData>, k: Seq<u8>) -> Seq<(u64, u64)> {
    match find_part(s, k) {
        None => Seq::empty(),
        Some(p) => p.all_rows(),
    }
}

pub open spec fn parts_max_seen(s: Seq<PartitionData>, k: Seq<u8>) -> Option<u64> {
    match find_part(s, k) {
        None => None,
        Some(p) => p.max_sequence_seen,
    }
}

pub open spec fn parts_completed(s: Seq<PartitionData>, k: Seq<u8>) -> Option<u64> {
    match find_part(s, k) {
        None => None,
        Some(p) => p.completed_persistence_max,
    }
}

pub open spec fn parts_progress(s: Seq<PartitionData>, k: Seq<u8>) -> Option<u64> {
    match find_part(s, k) {
        None => None,
        Some(p) => p.in_progress_persistence_max,
    }
}

/// Merges one batch of rows into the partition with this key, creating the
/// partition if it is new; its catalog id is then `pid`, as the cache
/// resolved it.  Only that key's rows and watermark change.
#[verifier::loop_isolation(false)]
fn upsert_partition(
    parts: &mut Vec<PartitionData>,
    key: &PartitionKey,
    batch: &ColumnBatch,
    seq: u64,
    pid: Option<PartitionId>,
)
    requires
        parts_wf(old(parts)@),
        key.wf(),
        batch.wf(),
    ensures
        parts_wf(final(parts)@),
        parts_rows(final(parts)@, key@) == parts_rows(old(parts)@, key@) + rows_of(
            batch@.0,
            batch@.1,
        ),
        parts_max_seen(final(parts)@, key@) == Some(
            opt_max(parts_max_seen(old(parts)@, key@), seq),
        ),
        parts_completed(final(parts)@, key@) == parts_completed(old(parts)@, key@),
        parts_progress(final(parts)@, key@) == parts_progress(old(parts)@, key@),
        forall|k: Seq<u8>| k != key@ ==> find_part(final(parts)@, k) == find_part(
            old(parts)@,
            k,
        ),
{
    let n = parts.len();
    let mut i: usize = 0;
    while i < n
        invariant
            i <= n,
            n == parts@.len(),
            parts@ == old(parts)@,
            forall|j: int| 0 <= j < i ==> (#[trigger] parts@[j]).partition_key@ != key@,
        decreases n - i,
    {
        if parts[i].partition_key.eq_key(key) {
            let mut p = parts.remove(i);
            proof {
                assert(p.wf());
            }
            let ghost old_p = p;
            p.buffer.merge(batch);
            p.max_sequence_seen = match p.max_sequence_seen {
                None => Some(seq),
                Some(m) => if seq > m {
                    Some(seq)
                } else {
                    Some(m)
                },
            };
            parts.insert(i, p);
            proof {
                let k0 = i as int;
                assert(parts@ =~= old(parts)@.update(k0, p));
                assert(p.all_rows() =~= old_p.all_rows() + rows_of(batch@.0, batch@.1)) by {
                    assert(rows_of(p.buffer@.0, p.buffer@.1) =~= rows_of(
                        old_p.buffer@.0,
                        old_p.buffer@.1,
                    ) + rows_of(batch@.0, batch@.1));
                }
                assert forall|k: Seq<u8>| true implies find_part(parts@, k) == (if k == key@ {
                    Some(p)
                } else {
                    find_part(old(parts)@, k)
                }) by {
                    lemma_find_part_update(old(parts)@, k0, p, k);
                }
                assert forall|a: int, b: int|
                    0 <= a < b < parts@.len() implies (#[trigger] parts@[a]).partition_key@ != (
                #[trigger] parts@[b]).partition_key@ by {
                    assert(old(parts)@[a].partition_key@ != old(parts)@[b].partition_key@);
                }
                assert forall|j: int| 0 <= j < parts@.len() implies (#[trigger] parts@[
                j]).wf() by {
                    if j != k0 {
                        assert(old(parts)@[j].wf());
                    }
                }
                assert(find_part(old(parts)@, key@) == Some(old_p)) by {
                    lemma_find_part_present(old(parts)@, k0, key@);
                }
            }
            return ;
        }
        i += 1;
    }
    // The key is new: create its partition.
    let mut buffer = ColumnBatch::new();
    buffer.merge(batch);
    let p = PartitionData {
        partition_key: clone_key(key),
        partition_id: pid,
        buffer,
        snapshots: Vec::new(),
        max_sequence_seen: Some(seq),
        completed_persistence_max: None,
        in_progress_persistence_max: None,
    };
    proof {
        assert(find_part(parts@, key@) is None) by {
            lemma_find_part_absent(parts@, key@);
        }
    }
    let ghost before = parts@;
    parts.push(p);
    proof {
        assert(parts@ =~= before.push(p));
        assert forall|k: Seq<u8>| true implies find_part(parts@, k) == (match find_part(
            before,
            k,
        ) {
            Some(q) => Some(q),
            None => if k == key@ {
                Some(p)
            } else {
                None
            },
        }) by {
            lemma_find_part_push(before, p, k);
        }
        assert(p.all_rows() =~= rows_of(batch@.0, batch@.1)) by {
            assert(snaps_rows(p.snapshots@) =~= Seq::<(u64, u64)>::empty());
        }
        assert(parts_rows(parts@, key@) =~= parts_rows(before, key@) + rows_of(
            batch@.0,
            batch@.1,
        ));
        assert forall|a: int, b: int|
            0 <= a < b < parts@.len() implies (#[trigger] parts@[a]).partition_key@ != (
        #[trigger] parts@[b]).partition_key@ by {
            if b < parts@.len() - 1 {
                assert(before[a].partition_key@ != before[b].partition_key@);
            } else {
                assert(find_part(before, before[a].partition_key@) is Some) by {
                    lemma_find_part_present(before, a, before[a].partition_key@);
                }
            }
        }
        assert forall|j: int| 0 <= j < parts@.len() implies (#[trigger] parts@[j]).wf() by {
            if j < parts@.len() - 1 {
                assert(before[j].wf());
            }
        }
    }
}

/// A partition at index `i` whose key is `k` is what lookup of `k` finds,
/// when keys are unique.
proof fn lemma_find_part_present(s: Seq<PartitionData>, i: int, k: Seq<u8>)
    requires
        unique_part_keys(s),
        0 <= i < s.len(),
        s[i].partition_key@ == k,
    ensures
        find_part(s, k) == Some(s[i]),
    decreases s.len(),
{
    if i > 0 {
        assert(s[0].partition_key@ != s[i].partition_key@);
        assert(unique_part_keys(s.drop_first())) by {
            assert forall|a: int, b: int|
                0 <= a < b < s.drop_first().len() implies (#[trigger] s.drop_first()[
            a]).partition_key@ != (#[trigger] s.drop_first()[b]).partition_key@ by {
                assert(s[a + 1].partition_key@ != s[b + 1].partition_key@);
            }
        }
        lemma_find_part_present(s.drop_first(), i - 1, k);
    }
}

/// When no element carries the key, lookup finds nothing.
proof fn lemma_find_part_absent(s: Seq<PartitionData>, k: Seq<u8>)
    requires
        forall|j: int| 0 <= j < s.len() ==> (#[trigger] s[j]).partition_key@ != k,
    ensures
        find_part(s, k) is None,
    decreases s.len(),
{
    if s.len() > 0 {
        assert(s[0].partition_key@ != k);
        assert forall|j: int| 0 <= j < s.drop_first().len() implies (#[trigger] s.drop_first()[
        j]).partition_key@ != k by {
            assert(s[j + 1].partition_key@ != k);
        }
        lemma_find_part_absent(s.drop_first(), k);
    }
}

/// Clones a partition key.
pub fn clone_key(key: &PartitionKey) -> (r: PartitionKey)
    requires
        key.wf(),
    ensures
        r@ == key@,
        r.wf(),
{
    let bytes = key.as_bytes();
    let mut copy: Vec<u8> = Vec::new();
    let n = bytes.len();
    let mut i: usize = 0;
    while i < n
        invariant
            n == bytes@.len(),
            i <= n,
            copy@ == bytes@.take(i as int),
        decreases n - i,
    {
        copy.push(bytes[i]);
        proof {
            assert(bytes@.take(i + 1) =~= bytes@.take(i as int).push(bytes@[i as int]));
        }
        i += 1;
    }
    proof {
        assert(bytes@.take(n as int) =~= bytes@);
    }
    match PartitionKey::new(copy) {
        Some(k) => k,
        None => {
            proof {
                assert(false);
            }
            unreached()
        },
    }
}


/// One table's node: its id and its partitions.
pub struct TableNode {
    pub table_id: TableId,
    pub partitions: Vec<PartitionData>,
}

/// The first table node with this id, if any.
pub open spec fn find_table(s: Seq<TableNode>, t: u64) -> Option<TableNode>
    decreases s.len(),
{
    if s.len() == 0 {
        None
    } else if s[0].table_id.0 == t {
        Some(s[0])
    } else {
        find_table(s.drop_first(), t)
    }
}

pub open spec fn unique_table_ids(s: Seq<TableNode>) -> bool {
    forall|a: int, b: int| 0 <= a < b < s.len() ==> (#[trigger] s[a]).table_id.0 != (
    #[trigger] s[b]).table_id.0
}

pub open spec fn tables_wf(s: Seq<TableNode>) -> bool {
    &&& unique_table_ids(s)
    &&& forall|i: int| 0 <= i < s.len() ==> parts_wf((#[trigger] s[i]).partitions@)
}

proof fn lemma_find_table_update(s: Seq<TableNode>, i: int, e: TableNode, t: u64)
    requires
        unique_table_ids(s),
        0 <= i < s.len(),
        e.table_id.0 == s[i].table_id.0,
    ensures
        find_table(s.update(i, e), t) == (if t == e.table_id.0 {
            Some(e)
        } else {
            find_table(s, t)
        }),
    decreases s.len(),
{
    if i == 0 {
        assert(s.update(0, e)[0] == e);
        assert(s.update(0, e).drop_first() =~= s.drop_first());
    } else {
        assert(s.update(i, e)[0] == s[0]);
        if s[0].table_id.0 == t {
            assert(s[0].table_id.0 != s[i].table_id.0);
        } else {
            assert(s.update(i, e).drop_first() =~= s.drop_first().update(i - 1, e));
            assert(unique_table_ids(s.drop_first())) by {
                assert forall|a: int, b: int|
                    0 <= a < b < s.drop_first().len() implies (#[trigger] s.drop_first()[
                a]).table_id.0 != (#[trigger] s.drop_first()[b]).table_id.0 by {
                    assert(s[a + 1].table_id.0 != s[b + 1].table_id.0);
                }
            }
            lemma_find_table_update(s.drop_first(), i - 1, e, t);
        }
    }
}

proof fn lemma_find_table_push(s: Seq<TableNode>, e: TableNode, t: u64)
    ensures
        find_table(s.push(e), t) == (match find_table(s, t) {
            Some(p) => Some(p),
            None => if e.table_id.0 == t {
                Some(e)
            } else {
                None
            },
        }),
    decreases s.len(),
{
    if s.len() == 0 {
        assert(s.push(e)[0] == e);
        assert(s.push(e).drop_first() =~= Seq::<TableNode>::empty());
    } else {
        assert(s.push(e)[0] == s[0]);
        assert(s.push(e).drop_first() =~= s.drop_first().push(e));
        lemma_find_table_push(s.drop_first(), e, t);
    }
}

proof fn lemma_find_table_present(s: Seq<TableNode>, i: int, t: u64)
    requires
        unique_table_ids(s),
        0 <= i < s.len(),
        s[i].table_id.0 == t,
    ensures
        find_table(s, t) == Some(s[i]),
    decreases s.len(),
{
    if i > 0 {
        assert(s[0].table_id.0 != s[i].table_id.0);
        assert(unique_table_ids(s.drop_first())) by {
            assert forall|a: int, b: int|
                0 <= a < b < s.drop_first().len() implies (#[trigger] s.drop_first()[
            a]).table_id.0 != (#[trigger] s.drop_first()[b]).table_id.0 by {
                assert(s[a + 1].table_id.0 != s[b + 1].table_id.0);
            }
        }
        lemma_find_table_present(s.drop_first(), i - 1, t);
    }
}

proof fn lemma_find_table_absent(s: Seq<TableNode>, t: u64)
    requires
        forall|j: int| 0 <= j < s.len() ==> (#[trigger] s[j]).table_id.0 != t,
    ensures
        find_table(s, t) is None,
    decreases s.len(),
{
    if s.len() > 0 {
        assert(s[0].table_id.0 != t);
        assert forall|j: int| 0 <= j < s.drop_first().len() implies (#[trigger] s.drop_first()[
        j]).table_id.0 != t by {
            assert(s[j + 1].table_id.0 != t);
        }
        lemma_find_table_absent(s.drop_first(), t);
    }
}

pub open spec fn tables_rows(s: Seq<TableNode>, t: u64, k: Seq<u8>) -> Seq<(u64, u64)> {
    match find_table(s, t) {
        None => Seq::empty(),
        Some(tn) => parts_rows(tn.partitions@, k),
    }
}

pub open spec fn tables_max_seen(s: Seq<TableNode>, t: u64, k: Seq<u8>) -> Option<u64> {
    match find_table(s, t) {
        None => None,
        Some(tn) => parts_max_seen(tn.partitions@, k),
    }
}

pub open spec fn tables_completed(s: Seq<TableNode>, t: u64, k: Seq<u8>) -> Option<u64> {
    match find_table(s, t) {
        None => None,
        Some(tn) => parts_completed(tn.partitions@, k),
    }
}

pub open spec fn tables_progress(s: Seq<TableNode>, t: u64, k: Seq<u8>) -> Option<u64> {
    match find_table(s, t) {
        None => None,
        Some(tn) => parts_progress(tn.partitions@, k),
    }
}

/// Merges one batch into the partition of one table, creating the table
/// node and the partition as needed.
#[verifier::loop_isolation(false)]
fn upsert_table(
    tables: &mut Vec<TableNode>,
    table_id: TableId,
    key: &PartitionKey,
    batch: &ColumnBatch,
    seq: u64,
    pid: Option<PartitionId>,
)
    requires
        tables_wf(old(tables)@),
        key.wf(),
        batch.wf(),
    ensures
        tables_wf(final(tables)@),
        tables_rows(final(tables)@, table_id.0, key@) == tables_rows(
            old(tables)@,
            table_id.0,
            key@,
        ) + rows_of(batch@.0, batch@.1),
        tables_max_seen(final(tables)@, table_id.0, key@) == Some(
            opt_max(tables_max_seen(old(tables)@, table_id.0, key@), seq),
        ),
        tables_completed(final(tables)@, table_id.0, key@) == tables_completed(
            old(tables)@,
            table_id.0,
            key@,
        ),
        tables_progress(final(tables)@, table_id.0, key@) == tables_progress(
            old(tables)@,
            table_id.0,
            key@,
        ),
        forall|t: u64, k: Seq<u8>| !(t == table_id.0 && k == key@) ==> {
            &&& tables_rows(final(tables)@, t, k) == tables_rows(old(tables)@, t, k)
            &&& tables_max_seen(final(tables)@, t, k) == tables_max_seen(old(tables)@, t, k)
            &&& tables_completed(final(tables)@, t, k) == tables_completed(old(tables)@, t, k)
            &&& tables_progress(final(tables)@, t, k) == tables_progress(old(tables)@, t, k)
        },
{
    let n = tables.len();
    let mut i: usize = 0;
    while i < n
        invariant
            i <= n,
            n == tables@.len(),
            tables@ == old(tables)@,
            forall|j: int| 0 <= j < i ==> (#[trigger] tables@[j]).table_id.0 != table_id.0,
        decreases n - i,
    {
        if tables[i].table_id.0 == table_id.0 {
            let mut tn = tables.remove(i);
            proof {
                assert(parts_wf(tn.partitions@));
            }
            let ghost old_tn = tn;
            upsert_partition(&mut tn.partitions, key, batch, seq, pid);
            tables.insert(i, tn);
            proof {
                let k0 = i as int;
                assert(tables@ =~= old(tables)@.update(k0, tn));
                assert forall|t: u64| true implies find_table(tables@, t) == (if t
                    == table_id.0 {
                    Some(tn)
                } else {
                    find_table(old(tables)@, t)
                }) by {
                    lemma_find_table_update(old(tables)@, k0, tn, t);
                }
                lemma_find_table_present(old(tables)@, k0, table_id.0);
                assert forall|a: int, b: int|
                    0 <= a < b < tables@.len() implies (#[trigger] tables@[a]).table_id.0 != (
                #[trigger] tables@[b]).table_id.0 by {
                    assert(old(tables)@[a].table_id.0 != old(tables)@[b].table_id.0);
                }
                assert forall|j: int| 0 <= j < tables@.len() implies parts_wf(
                    (#[trigger] tables@[j]).partitions@,
                ) by {
                    if j != k0 {
                        assert(parts_wf(old(tables)@[j].partitions@));
                    }
                }
            }
            return ;
        }
        i += 1;
    }
    // The table is new: create its node with the one partition.
    let mut tn = TableNode { table_id, partitions: Vec::new() };
    proof {
        assert(parts_wf(tn.partitions@));
        assert(find_part(tn.partitions@, key@) is None);
        assert(parts_rows(tn.partitions@, key@) =~= Seq::<(u64, u64)>::empty());
    }
    upsert_partition(&mut tn.partitions, key, batch, seq, pid);
    proof {
        assert(find_table(tables@, table_id.0) is None) by {
            lemma_find_table_absent(tables@, table_id.0);
        }
    }
    let ghost before = tables@;
    tables.push(tn);
    proof {
        assert(tables@ =~= before.push(tn));
        assert forall|t: u64| true implies find_table(tables@, t) == (match find_table(
            before,
            t,
        ) {
            Some(q) => Some(q),
            None => if t == table_id.0 {
                Some(tn)
            } else {
                None
            },
        }) by {
            lemma_find_table_push(before, tn, t);
        }
        assert(tables_rows(tables@, table_id.0, key@) =~= tables_rows(
            before,
            table_id.0,
            key@,
        ) + rows_of(batch@.0, batch@.1));
        assert forall|a: int, b: int|
            0 <= a < b < tables@.len() implies (#[trigger] tables@[a]).table_id.0 != (
        #[trigger] tables@[b]).table_id.0 by {
            if b < tables@.len() - 1 {
                assert(before[a].table_id.0 != before[b].table_id.0);
            } else {
                assert(find_table(before, before[a].table_id.0) is Some) by {
                    lemma_find_table_present(before, a, before[a].table_id.0);
                }
            }
        }
        assert forall|j: int| 0 <= j < tables@.len() implies parts_wf(
            (#[trigger] tables@[j]).partitions@,
        ) by {
            if j < tables@.len() - 1 {
                assert(parts_wf(before[j].partitions@));
            }
        }
    }
}


/// One namespace's node: its id and its tables.
pub struct NamespaceNode {
    pub namespace_id: NamespaceId,
    pub tables: Vec<TableNode>,
}

/// The first namespace node with this id, if any.
pub open spec fn find_ns(s: Seq<NamespaceNode>, ns: u64) -> Option<NamespaceNode>
    decreases s.len(),
{
    if s.len() == 0 {
        None
    } else if s[0].namespace_id.0 == ns {
        Some(s[0])
    } else {
        find_ns(s.drop_first(), ns)
    }
}

pub open spec fn unique_ns_ids(s: Seq<NamespaceNode>) -> bool {
    forall|a: int, b: int| 0 <= a < b < s.len() ==> (#[trigger] s[a]).namespace_id.0 != (
    #[trigger] s[b]).namespace_id.0
}

pub open spec fn nss_wf(s: Seq<NamespaceNode>) -> bool {
    &&& unique_ns_ids(s)
    &&& forall|i: int| 0 <= i < s.len() ==> tables_wf((#[trigger] s[i]).tables@)
}

proof fn lemma_find_ns_update(s: Seq<NamespaceNode>, i: int, e: NamespaceNode, ns: u64)
    requires
        unique_ns_ids(s),
        0 <= i < s.len(),
        e.namespace_id.0 == s[i].namespace_id.0,
    ensures
        find_ns(s.update(i, e), ns) == (if ns == e.namespace_id.0 {
            Some(e)
        } else {
            find_ns(s, ns)
        }),
    decreases s.len(),
{
    if i == 0 {
        assert(s.update(0, e)[0] == e);
        assert(s.update(0, e).drop_first() =~= s.drop_first());
    } else {
        assert(s.update(i, e)[0] == s[0]);
        if s[0].namespace_id.0 == ns {
            assert(s[0].namespace_id.0 != s[i].namespace_id.0);
        } else {
            assert(s.update(i, e).drop_first() =~= s.drop_first().update(i - 1, e));
            assert(unique_ns_ids(s.drop_first())) by {
                assert forall|a: int, b: int|
                    0 <= a < b < s.drop_first().len() implies (#[trigger] s.drop_first()[
                a]).namespace_id.0 != (#[trigger] s.drop_first()[b]).namespace_id.0 by {
                    assert(s[a + 1].namespace_id.0 != s[b + 1].namespace_id.0);
                }
            }
            lemma_find_ns_update(s.drop_first(), i - 1, e, ns);
        }
    }
}

proof fn lemma_find_ns_push(s: Seq<NamespaceNode>, e: NamespaceNode, ns: u64)
    ensures
        find_ns(s.push(e), ns) == (match find_ns(s, ns) {
            Some(p) => Some(p),
            None => if e.namespace_id.0 == ns {
                Some(e)
            } else {
                None
            },
        }),
    decreases s.len(),
{
    if s.len() == 0 {
        assert(s.push(e)[0] == e);
        assert(s.push(e).drop_first() =~= Seq::<NamespaceNode>::empty());
    } else {
        assert(s.push(e)[0] == s[0]);
        assert(s.push(e).drop_first() =~= s.drop_first().push(e));
        lemma_find_ns_push(s.drop_first(), e, ns);
    }
}

proof fn lemma_find_ns_present(s: Seq<NamespaceNode>, i: int, ns: u64)
    requires
        unique_ns_ids(s),
        0 <= i < s.len(),
        s[i].namespace_id.0 == ns,
    ensures
        find_ns(s, ns) == Some(s[i]),
    decreases s.len(),
{
    if i > 0 {
        assert(s[0].namespace_id.0 != s[i].namespace_id.0);
        assert(unique_ns_ids(s.drop_first())) by {
            assert forall|a: int, b: int|
                0 <= a < b < s.drop_first().len() implies (#[trigger] s.drop_first()[
            a]).namespace_id.0 != (#[trigger] s.drop_first()[b]).namespace_id.0 by {
                assert(s[a + 1].namespace_id.0 != s[b + 1].namespace_id.0);
            }
        }
        lemma_find_ns_present(s.drop_first(), i - 1, ns);
    }
}

proof fn lemma_find_ns_absent(s: Seq<NamespaceNode>, ns: u64)
    requires
        forall|j: int| 0 <= j < s.len() ==> (#[trigger] s[j]).namespace_id.0 != ns,
    ensures
        find_ns(s, ns) is None,
    decreases s.len(),
{
    if s.len() > 0 {
        assert(s[0].namespace_id.0 != ns);
        assert forall|j: int| 0 <= j < s.drop_first().len() implies (#[trigger] s.drop_first()[
        j]).namespace_id.0 != ns by {
            assert(s[j + 1].namespace_id.0 != ns);
        }
        lemma_find_ns_absent(s.drop_first(), ns);
    }
}

pub open spec fn nss_rows(s: Seq<NamespaceNode>, ns: u64, t: u64, k: Seq<u8>) -> Seq<
    (u64, u64),
> {
    match find_ns(s, ns) {
        None => Seq::empty(),
        Some(nn) => tables_rows(nn.tables@, t, k),
    }
}

pub open spec fn nss_max_seen(s: Seq<NamespaceNode>, ns: u64, t: u64, k: Seq<u8>) -> Option<
    u64,
> {
    match find_ns(s, ns) {
        None => None,
        Some(nn) => tables_max_seen(nn.tables@, t, k),
    }
}

pub open spec fn nss_completed(s: Seq<NamespaceNode>, ns: u64, t: u64, k: Seq<u8>) -> Option<
    u64,
> {
    match find_ns(s, ns) {
        None => None,
        Some(nn) => tables_completed(nn.tables@, t, k),
    }
}

pub open spec fn nss_progress(s: Seq<NamespaceNode>, ns: u64, t: u64, k: Seq<u8>) -> Option<
    u64,
> {
    match find_ns(s, ns) {
        None => None,
        Some(nn) => tables_progress(nn.tables@, t, k),
    }
}

/// Merges one batch into one partition of one table of one namespace,
/// creating nodes along the path as needed.
#[verifier::loop_isolation(false)]
fn upsert_ns(
    nss: &mut Vec<NamespaceNode>,
    ns_id: NamespaceId,
    table_id: TableId,
    key: &PartitionKey,
    batch: &ColumnBatch,
    seq: u64,
    pid: Option<PartitionId>,
)
    requires
        nss_wf(old(nss)@),
        key.wf(),
        batch.wf(),
    ensures
        nss_wf(final(nss)@),
        nss_rows(final(nss)@, ns_id.0, table_id.0, key@) == nss_rows(
            old(nss)@,
            ns_id.0,
            table_id.0,
            key@,
        ) + rows_of(batch@.0, batch@.1),
        nss_max_seen(final(nss)@, ns_id.0, table_id.0, key@) == Some(
            opt_max(nss_max_seen(old(nss)@, ns_id.0, table_id.0, key@), seq),
        ),
        nss_completed(final(nss)@, ns_id.0, table_id.0, key@) == nss_completed(
            old(nss)@,
            ns_id.0,
            table_id.0,
            key@,
        ),
        nss_progress(final(nss)@, ns_id.0, table_id.0, key@) == nss_progress(
            old(nss)@,
            ns_id.0,
            table_id.0,
            key@,
        ),
        forall|ns: u64, t: u64, k: Seq<u8>| !(ns == ns_id.0 && t == table_id.0 && k == key@)
            ==> {
            &&& nss_rows(final(nss)@, ns, t, k) == nss_rows(old(nss)@, ns, t, k)
            &&& nss_max_seen(final(nss)@, ns, t, k) == nss_max_seen(old(nss)@, ns, t, k)
            &&& nss_completed(final(nss)@, ns, t, k) == nss_completed(old(nss)@, ns, t, k)
            &&& nss_progress(final(nss)@, ns, t, k) == nss_progress(old(nss)@, ns, t, k)
        },
{
    let n = nss.len();
    let mut i: usize = 0;
    while i < n
        invariant
            i <= n,
            n == nss@.len(),
            nss@ == old(nss)@,
            forall|j: int| 0 <= j < i ==> (#[trigger] nss@[j]).namespace_id.0 != ns_id.0,
        decreases n - i,
    {
        if nss[i].namespace_id.0 == ns_id.0 {
            let mut nn = nss.remove(i);
            proof {
                assert(tables_wf(nn.tables@));
            }
            upsert_table(&mut nn.tables, table_id, key, batch, seq, pid);
            nss.insert(i, nn);
            proof {
                let k0 = i as int;
                assert(nss@ =~= old(nss)@.update(k0, nn));
                assert forall|nsq: u64| true implies find_ns(nss@, nsq) == (if nsq == ns_id.0 {
                    Some(nn)
                } else {
                    find_ns(old(nss)@, nsq)
                }) by {
                    lemma_find_ns_update(old(nss)@, k0, nn, nsq);
                }
                lemma_find_ns_present(old(nss)@, k0, ns_id.0);
                assert forall|a: int, b: int|
                    0 <= a < b < nss@.len() implies (#[trigger] nss@[a]).namespace_id.0 != (
                #[trigger] nss@[b]).namespace_id.0 by {
                    assert(old(nss)@[a].namespace_id.0 != old(nss)@[b].namespace_id.0);
                }
                assert forall|j: int| 0 <= j < nss@.len() implies tables_wf(
                    (#[trigger] nss@[j]).tables@,
                ) by {
                    if j != k0 {
                        assert(tables_wf(old(nss)@[j].tables@));
                    }
                }
            }
            return ;
        }
        i += 1;
    }
    // The namespace is new: create its node with the one table.
    let mut nn = NamespaceNode { namespace_id: ns_id, tables: Vec::new() };
    proof {
        assert(tables_wf(nn.tables@));
        assert(find_table(nn.tables@, table_id.0) is None);
        assert(tables_rows(nn.tables@, table_id.0, key@) =~= Seq::<(u64, u64)>::empty());
    }
    upsert_table(&mut nn.tables, table_id, key, batch, seq, pid);
    proof {
        assert(find_ns(nss@, ns_id.0) is None) by {
            lemma_find_ns_absent(nss@, ns_id.0);
        }
    }
    let ghost before = nss@;
    nss.push(nn);
    proof {
        assert(nss@ =~= before.push(nn));
        assert forall|nsq: u64| true implies find_ns(nss@, nsq) == (match find_ns(
            before,
            nsq,
        ) {
            Some(q) => Some(q),
            None => if nsq == ns_id.0 {
                Some(nn)
            } else {
                None
            },
        }) by {
            lemma_find_ns_push(before, nn, nsq);
        }
        assert(nss_rows(nss@, ns_id.0, table_id.0, key@) =~= nss_rows(
            before,
            ns_id.0,
            table_id.0,
            key@,
        ) + rows_of(batch@.0, batch@.1));
        assert forall|a: int, b: int|
            0 <= a < b < nss@.len() implies (#[trigger] nss@[a]).namespace_id.0 != (
        #[trigger] nss@[b]).namespace_id.0 by {
            if b < nss@.len() - 1 {
                assert(before[a].namespace_id.0 != before[b].namespace_id.0);
            } else {
                assert(find_ns(before, before[a].namespace_id.0) is Some) by {
                    lemma_find_ns_present(before, a, before[a].namespace_id.0);
                }
            }
        }
        assert forall|j: int| 0 <= j < nss@.len() implies tables_wf(
            (#[trigger] nss@[j]).tables@,
        ) by {
            if j < nss@.len() - 1 {
                assert(tables_wf(before[j].tables@));
            }
        }
    }
}


/// The rows a write's batches put into table `t`, in batch order.
pub open spec fn tables_rows_model(ts: Seq<TableBatchModel>, t: u64) -> Seq<(u64, u64)>
    decreases ts.len(),
{
    if ts.len() == 0 {
        Seq::empty()
    } else {
        (if ts[0].table_id == t {
            rows_of(ts[0].times, ts[0].values)
        } else {
            Seq::empty()
        }) + tables_rows_model(ts.drop_first(), t)
    }
}

proof fn lemma_tables_rows_model_snoc(ts: Seq<TableBatchModel>, i: int, t: u64)
    requires
        0 <= i < ts.len(),
    ensures
        tables_rows_model(ts.take(i + 1), t) == tables_rows_model(ts.take(i), t) + (if ts[i].table_id
            == t {
            rows_of(ts[i].times, ts[i].values)
        } else {
            Seq::<(u64, u64)>::empty()
        }),
    decreases i,
{
    let piece = if ts[i].table_id == t {
        rows_of(ts[i].times, ts[i].values)
    } else {
        Seq::<(u64, u64)>::empty()
    };
    if i == 0 {
        assert(ts.take(1) =~= seq![ts[0]]);
        assert(seq![ts[0]].drop_first() =~= Seq::<TableBatchModel>::empty());
        assert(ts.take(0) =~= Seq::<TableBatchModel>::empty());
        assert(tables_rows_model(Seq::<TableBatchModel>::empty(), t) =~= Seq::<
            (u64, u64),
        >::empty());
        assert(tables_rows_model(ts.take(1), t) =~= piece);
        assert(tables_rows_model(ts.take(0), t) + piece =~= piece);
    } else {
        let d = ts.drop_first();
        lemma_tables_rows_model_snoc(d, i - 1, t);
        assert(ts.take(i + 1).drop_first() =~= d.take(i));
        assert(ts.take(i).drop_first() =~= d.take(i - 1));
        assert(ts.take(i + 1)[0] == ts[0]);
        assert(ts.take(i)[0] == ts[0]);
        assert(d[i - 1] == ts[i]);
        let head = if ts[0].table_id == t {
            rows_of(ts[0].times, ts[0].values)
        } else {
            Seq::<(u64, u64)>::empty()
        };
        assert(head + (tables_rows_model(d.take(i - 1), t) + piece) =~= (head
            + tables_rows_model(d.take(i - 1), t)) + piece);
    }
}

/// The rows one operation adds to the partition `(ns, t, k)`: its batches
/// for table `t`, when the operation's namespace and key match.
pub open spec fn op_rows(m: OpModel, ns: u64, t: u64, k: Seq<u8>) -> Seq<(u64, u64)> {
    if m.namespace_id == ns && m.partition_key == k {
        tables_rows_model(m.tables, t)
    } else {
        Seq::empty()
    }
}

/// Whether the operation writes into the partition `(ns, t, k)` at all.
pub open spec fn op_touches(m: OpModel, ns: u64, t: u64, k: Seq<u8>) -> bool {
    m.namespace_id == ns && m.partition_key == k && exists|j: int|
        0 <= j < m.tables.len() && (#[trigger] m.tables[j]).table_id == t
}

/// The buffer tree, with the partition-id cache its lookups go through.
pub struct BufferTree {
    namespaces: Vec<NamespaceNode>,
    cache: PartitionCache,
}

impl BufferTree {
    pub closed spec fn nss(&self) -> Seq<NamespaceNode> {
        self.namespaces@
    }

    pub closed spec fn cache_view(&self) -> PartitionCache {
        self.cache
    }

    pub open spec fn wf(&self) -> bool {
        nss_wf(self.nss())
    }

    /// The rows the tree holds for a partition.
    pub open spec fn rows(&self, ns: u64, t: u64, k: Seq<u8>) -> Seq<(u64, u64)> {
        nss_rows(self.nss(), ns, t, k)
    }

    /// The greatest sequence number a partition has seen.
    pub open spec fn max_seen(&self, ns: u64, t: u64, k: Seq<u8>) -> Option<u64> {
        nss_max_seen(self.nss(), ns, t, k)
    }

    /// The greatest sequence number known persisted for a partition.
    pub open spec fn completed(&self, ns: u64, t: u64, k: Seq<u8>) -> Option<u64> {
        nss_completed(self.nss(), ns, t, k)
    }

    /// The sequence number of the persist currently running, if any.
    pub open spec fn progress(&self, ns: u64, t: u64, k: Seq<u8>) -> Option<u64> {
        nss_progress(self.nss(), ns, t, k)
    }

    /// An empty tree over a partition cache.
    pub fn new(cache: PartitionCache) -> (r: Self)
        ensures
            r.wf(),
            r.nss() == Seq::<NamespaceNode>::empty(),
            forall|ns: u64, t: u64, k: Seq<u8>| r.rows(ns, t, k) == Seq::<(u64, u64)>::empty(),
    {
        let r = BufferTree { namespaces: Vec::new(), cache };
        proof {
            assert(r.nss() =~= Seq::<NamespaceNode>::empty());
        }
        r
    }

    /// Applies one sequenced operation: for each table batch in the write,
    /// merges its rows into the partition of `(namespace, table, key)` and
    /// raises that partition's high-water mark to the operation's sequence
    /// number.  Every other partition, and every persistence watermark, is
    /// untouched.
    #[verifier::loop_isolation(false)]
    #[verifier::rlimit(60)]
    pub fn apply(&mut self, op: &SequencedOp)
        requires
            old(self).wf(),
            op.wf(),
        ensures
            final(self).wf(),
            forall|ns: u64, t: u64, k: Seq<u8>| final(self).rows(ns, t, k) == old(self).rows(
                ns,
                t,
                k,
            ) + op_rows(op@, ns, t, k),
            forall|ns: u64, t: u64, k: Seq<u8>| final(self).max_seen(ns, t, k) == (if op_touches(
                op@,
                ns,
                t,
                k,
            ) {
                Some(opt_max(old(self).max_seen(ns, t, k), op@.sequence_number))
            } else {
                old(self).max_seen(ns, t, k)
            }),
            forall|ns: u64, t: u64, k: Seq<u8>| final(self).completed(ns, t, k) == old(
                self,
            ).completed(ns, t, k),
            forall|ns: u64, t: u64, k: Seq<u8>| final(self).progress(ns, t, k) == old(
                self,
            ).progress(ns, t, k),
    {
        let seq_no = op.sequence_number.get();
        let ns_id = op.namespace_id;
        let key = &op.op.partition_key;
        let n = op.op.tables.len();
        let mut ti: usize = 0;
        proof {
            assert forall|ns: u64, t: u64, k: Seq<u8>| true implies #[trigger] nss_rows(
                self.nss(),
                ns,
                t,
                k,
            ) == nss_rows(old(self).nss(), ns, t, k) + (if op@.namespace_id == ns
                && op@.partition_key == k {
                tables_rows_model(op@.tables.take(0), t)
            } else {
                Seq::<(u64, u64)>::empty()
            }) by {
                assert(op@.tables.take(0) =~= Seq::<TableBatchModel>::empty());
                assert(nss_rows(old(self).nss(), ns, t, k) + Seq::<(u64, u64)>::empty()
                    =~= nss_rows(old(self).nss(), ns, t, k));
                assert(nss_rows(old(self).nss(), ns, t, k) + tables_rows_model(
                    op@.tables.take(0),
                    t,
                ) =~= nss_rows(old(self).nss(), ns, t, k));
            }
        }
        while ti < n
            invariant
                ti <= n,
                n == op.op.tables@.len(),
                nss_wf(self.nss()),
                forall|ns: u64, t: u64, k: Seq<u8>| #[trigger] nss_rows(self.nss(), ns, t, k)
                    == nss_rows(old(self).nss(), ns, t, k) + (if op@.namespace_id == ns
                    && op@.partition_key == k {
                    tables_rows_model(op@.tables.take(ti as int), t)
                } else {
                    Seq::<(u64, u64)>::empty()
                }),
                forall|ns: u64, t: u64, k: Seq<u8>| #[trigger] nss_max_seen(
                    self.nss(),
                    ns,
                    t,
                    k,
                ) == (if op@.namespace_id == ns && op@.partition_key == k && (exists|j: int|
                    0 <= j < ti && (#[trigger] op@.tables[j]).table_id == t) {
                    Some(opt_max(nss_max_seen(old(self).nss(), ns, t, k), op@.sequence_number))
                } else {
                    nss_max_seen(old(self).nss(), ns, t, k)
                }),
                forall|ns: u64, t: u64, k: Seq<u8>| #[trigger] nss_completed(
                    self.nss(),
                    ns,
                    t,
                    k,
                ) == nss_completed(old(self).nss(), ns, t, k),
                forall|ns: u64, t: u64, k: Seq<u8>| #[trigger] nss_progress(
                    self.nss(),
                    ns,
                    t,
                    k,
                ) == nss_progress(old(self).nss(), ns, t, k),
            decreases n - ti,
        {
            let tb = &op.op.tables[ti];
            proof {
                assert(op.op.tables@[ti as int].wf());
            }
            let pid = self.cache.get(ns_id, tb.table_id, key);
            let ghost mid = self.nss();
            upsert_ns(&mut self.namespaces, ns_id, tb.table_id, key, &tb.batch, seq_no, pid);
            proof {
                let tid = op@.tables[ti as int].table_id;
                assert(tb.table_id.0 == tid);
                assert(tb.batch@.0 == op@.tables[ti as int].times);
                assert(tb.batch@.1 == op@.tables[ti as int].values);
                assert forall|ns: u64, t: u64, k: Seq<u8>| true implies #[trigger] nss_rows(
                    self.nss(),
                    ns,
                    t,
                    k,
                ) == nss_rows(old(self).nss(), ns, t, k) + (if op@.namespace_id == ns
                    && op@.partition_key == k {
                    tables_rows_model(op@.tables.take(ti + 1), t)
                } else {
                    Seq::<(u64, u64)>::empty()
                }) by {
                    lemma_tables_rows_model_snoc(op@.tables, ti as int, t);
                    let base = nss_rows(old(self).nss(), ns, t, k);
                    if op@.namespace_id == ns && op@.partition_key == k {
                        if ns == ns_id.0 && t == tid && k == key@ {
                            assert(nss_rows(self.nss(), ns, t, k) == nss_rows(mid, ns, t, k)
                                + rows_of(tb.batch@.0, tb.batch@.1));
                            assert((base + tables_rows_model(op@.tables.take(ti as int), t))
                                + rows_of(op@.tables[ti as int].times, op@.tables[
                            ti as int].values) =~= base + tables_rows_model(
                                op@.tables.take(ti + 1),
                                t,
                            ));
                        } else {
                            assert(nss_rows(self.nss(), ns, t, k) == nss_rows(mid, ns, t, k));
                            assert(base + tables_rows_model(op@.tables.take(ti as int), t)
                                =~= base + tables_rows_model(op@.tables.take(ti + 1), t));
                        }
                    } else {
                        assert(!(ns == ns_id.0 && t == tid && k == key@));
                        assert(nss_rows(self.nss(), ns, t, k) == nss_rows(mid, ns, t, k));
                    }
                }
                assert forall|ns: u64, t: u64, k: Seq<u8>| true implies #[trigger] nss_max_seen(
                    self.nss(),
                    ns,
                    t,
                    k,
                ) == (if op@.namespace_id == ns && op@.partition_key == k && (exists|j: int|
                    0 <= j < ti + 1 && (#[trigger] op@.tables[j]).table_id == t) {
                    Some(opt_max(nss_max_seen(old(self).nss(), ns, t, k), op@.sequence_number))
                } else {
                    nss_max_seen(old(self).nss(), ns, t, k)
                }) by {
                    let base = nss_max_seen(old(self).nss(), ns, t, k);
                    if ns == ns_id.0 && t == tid && k == key@ {
                        assert(op@.tables[ti as int].table_id == t);
                        assert(exists|j: int|
                            0 <= j < ti + 1 && (#[trigger] op@.tables[j]).table_id == t);
                        assert(nss_max_seen(self.nss(), ns, t, k) == Some(
                            opt_max(nss_max_seen(mid, ns, t, k), seq_no),
                        ));
                    } else {
                        assert(nss_max_seen(self.nss(), ns, t, k) == nss_max_seen(
                            mid,
                            ns,
                            t,
                            k,
                        ));
                        if op@.namespace_id == ns && op@.partition_key == k {
                            assert forall|j: int|
                                0 <= j < ti + 1 && (#[trigger] op@.tables[j]).table_id
                                    == t implies j < ti by {
                                if j == ti {
                                    assert(op@.tables[j].table_id == tid);
                                }
                            }
                        }
                    }
                }
            }
            ti += 1;
        }
        proof {
            assert(op@.tables.take(n as int) =~= op@.tables);
            assert forall|ns: u64, t: u64, k: Seq<u8>| true implies final(self).rows(ns, t, k)
                == old(self).rows(ns, t, k) + op_rows(op@, ns, t, k) by {
                if !(op@.namespace_id == ns && op@.partition_key == k) {
                    assert(old(self).rows(ns, t, k) + Seq::<(u64, u64)>::empty() =~= old(
                        self,
                    ).rows(ns, t, k));
                }
            }
        }
    }
}


// ---------------------------------------------------------------------------
// Snapshots and persistence watermarks.
// ---------------------------------------------------------------------------

/// A mutation applied to one partition in place.
pub enum PartitionOp {
    /// Detach the mutable buffer and hand out a copy of every pending
    /// snapshot, marking a persist as in progress.
    Snapshot,
    /// Record that every sequence number at or below the value is durable
    /// in object storage, dropping the snapshots that covered them.
    MarkPersisted(u64),
    /// Store the partition's catalog id, as the resolver returned it.
    ResolveId(PartitionId),
}

/// The rows of the batches, concatenated.
pub open spec fn batches_rows(bs: Seq<ColumnBatch>) -> Seq<(u64, u64)>
    decreases bs.len(),
{
    if bs.len() == 0 {
        Seq::empty()
    } else {
        rows_of(bs[0]@.0, bs[0]@.1) + batches_rows(bs.drop_first())
    }
}

/// Whether a snapshot entry still holds unpersisted rows once sequence
/// numbers at or below `s` are durable.
pub open spec fn keep_snapshot(e: SnapshotEntry, s: u64) -> bool {
    match e.max_seq {
        None => true,
        Some(m) => m > s,
    }
}

/// The snapshot entries that survive persisting through `s`, in order.
pub open spec fn drop_persisted(snaps: Seq<SnapshotEntry>, s: u64) -> Seq<SnapshotEntry>
    decreases snaps.len(),
{
    if snaps.len() == 0 {
        Seq::empty()
    } else {
        (if keep_snapshot(snaps[0], s) {
            seq![snaps[0]]
        } else {
            Seq::empty()
        }) + drop_persisted(snaps.drop_first(), s)
    }
}

proof fn lemma_snaps_rows_push(s: Seq<SnapshotEntry>, e: SnapshotEntry)
    ensures
        snaps_rows(s.push(e)) == snaps_rows(s) + rows_of(e.batch@.0, e.batch@.1),
    decreases s.len(),
{
    if s.len() == 0 {
        assert(s.push(e)[0] == e);
        assert(s.push(e).drop_first() =~= Seq::<SnapshotEntry>::empty());
        assert(snaps_rows(Seq::<SnapshotEntry>::empty()) =~= Seq::<(u64, u64)>::empty());
        assert(snaps_rows(s.push(e)) =~= rows_of(e.batch@.0, e.batch@.1));
        assert(snaps_rows(s) + rows_of(e.batch@.0, e.batch@.1) =~= rows_of(
            e.batch@.0,
            e.batch@.1,
        ));
    } else {
        assert(s.push(e)[0] == s[0]);
        assert(s.push(e).drop_first() =~= s.drop_first().push(e));
        lemma_snaps_rows_push(s.drop_first(), e);
        assert(rows_of(s[0].batch@.0, s[0].batch@.1) + (snaps_rows(s.drop_first()) + rows_of(
            e.batch@.0,
            e.batch@.1,
        )) =~= (rows_of(s[0].batch@.0, s[0].batch@.1) + snaps_rows(s.drop_first())) + rows_of(
            e.batch@.0,
            e.batch@.1,
        ));
    }
}

proof fn lemma_snaps_rows_snoc(s: Seq<SnapshotEntry>, i: int)
    requires
        0 <= i < s.len(),
    ensures
        snaps_rows(s.take(i + 1)) == snaps_rows(s.take(i)) + rows_of(
            s[i].batch@.0,
            s[i].batch@.1,
        ),
    decreases s.len(),
{
    assert(s.take(i + 1) =~= s.take(i).push(s[i]));
    lemma_snaps_rows_push(s.take(i), s[i]);
}

proof fn lemma_batches_rows_push(s: Seq<ColumnBatch>, e: ColumnBatch)
    ensures
        batches_rows(s.push(e)) == batches_rows(s) + rows_of(e@.0, e@.1),
    decreases s.len(),
{
    if s.len() == 0 {
        assert(s.push(e)[0] == e);
        assert(s.push(e).drop_first() =~= Seq::<ColumnBatch>::empty());
        assert(batches_rows(Seq::<ColumnBatch>::empty()) =~= Seq::<(u64, u64)>::empty());
        assert(batches_rows(s.push(e)) =~= rows_of(e@.0, e@.1));
        assert(batches_rows(s) + rows_of(e@.0, e@.1) =~= rows_of(e@.0, e@.1));
    } else {
        assert(s.push(e)[0] == s[0]);
        assert(s.push(e).drop_first() =~= s.drop_first().push(e));
        lemma_batches_rows_push(s.drop_first(), e);
        assert(rows_of(s[0]@.0, s[0]@.1) + (batches_rows(s.drop_first()) + rows_of(e@.0, e@.1))
            =~= (rows_of(s[0]@.0, s[0]@.1) + batches_rows(s.drop_first())) + rows_of(
            e@.0,
            e@.1,
        ));
    }
}

proof fn lemma_drop_persisted_snoc(s: Seq<SnapshotEntry>, i: int, v: u64)
    requires
        0 <= i < s.len(),
    ensures
        drop_persisted(s.take(i + 1), v) == drop_persisted(s.take(i), v) + (if keep_snapshot(
            s[i],
            v,
        ) {
            seq![s[i]]
        } else {
            Seq::<SnapshotEntry>::empty()
        }),
    decreases i,
{
    let piece = if keep_snapshot(s[i], v) {
        seq![s[i]]
    } else {
        Seq::<SnapshotEntry>::empty()
    };
    if i == 0 {
        assert(s.take(1) =~= seq![s[0]]);
        assert(seq![s[0]].drop_first() =~= Seq::<SnapshotEntry>::empty());
        assert(s.take(0) =~= Seq::<SnapshotEntry>::empty());
        assert(drop_persisted(Seq::<SnapshotEntry>::empty(), v) =~= Seq::<
            SnapshotEntry,
        >::empty());
        assert(drop_persisted(s.take(1), v) =~= piece);
        assert(drop_persisted(s.take(0), v) + piece =~= piece);
    } else {
        let d = s.drop_first();
        lemma_drop_persisted_snoc(d, i - 1, v);
        assert(s.take(i + 1).drop_first() =~= d.take(i));
        assert(s.take(i).drop_first() =~= d.take(i - 1));
        assert(s.take(i + 1)[0] == s[0]);
        assert(s.take(i)[0] == s[0]);
        assert(d[i - 1] == s[i]);
        let head = if keep_snapshot(s[0], v) {
            seq![s[0]]
        } else {
            Seq::<SnapshotEntry>::empty()
        };
        assert(head + (drop_persisted(d.take(i - 1), v) + piece) =~= (head + drop_persisted(
            d.take(i - 1),
            v,
        )) + piece);
    }
}

/// What one [`PartitionOp`] leaves behind and hands back, relating the
/// partition before (`p`) and after (`q`) and the result `r`.
pub open spec fn partition_op_spec(
    op: PartitionOp,
    p: PartitionData,
    q: PartitionData,
    r: Option<(Vec<ColumnBatch>, u64)>,
) -> bool {
    &&& q.partition_key@ == p.partition_key@
    &&& match op {
        PartitionOp::Snapshot => {
            &&& q.all_rows() == p.all_rows()
            &&& q.buffer@.0.len() == 0
            &&& q.max_sequence_seen == p.max_sequence_seen
            &&& q.completed_persistence_max == p.completed_persistence_max
            &&& q.partition_id == p.partition_id
            &&& match r {
                Some(out) => {
                    &&& p.all_rows().len() > 0
                    &&& p.max_sequence_seen == Some(out.1)
                    &&& batches_rows(out.0@) == p.all_rows()
                    &&& q.in_progress_persistence_max == Some(out.1)
                },
                None => {
                    &&& p.all_rows().len() == 0 || p.max_sequence_seen is None
                    &&& q.in_progress_persistence_max == p.in_progress_persistence_max
                },
            }
        },
        PartitionOp::MarkPersisted(v) => {
            &&& r is None
            &&& q.completed_persistence_max == Some(opt_max(p.completed_persistence_max, v))
            &&& q.snapshots@ == drop_persisted(p.snapshots@, v)
            &&& q.buffer@ == p.buffer@
            &&& q.max_sequence_seen == p.max_sequence_seen
            &&& q.partition_id == p.partition_id
            &&& q.in_progress_persistence_max == (match p.in_progress_persistence_max {
                None => None::<u64>,
                Some(m) => if m <= v {
                    None
                } else {
                    Some(m)
                },
            })
        },
        PartitionOp::ResolveId(pid) => {
            &&& r is None
            &&& q.partition_id == Some(pid)
            &&& q.buffer@ == p.buffer@
            &&& q.snapshots@ == p.snapshots@
            &&& q.max_sequence_seen == p.max_sequence_seen
            &&& q.completed_persistence_max == p.completed_persistence_max
            &&& q.in_progress_persistence_max == p.in_progress_persistence_max
        },
    }
}

/// Applies one [`PartitionOp`] to a partition value.
#[verifier::loop_isolation(false)]
fn run_partition_op(p: &mut PartitionData, op: &PartitionOp) -> (r: Option<
    (Vec<ColumnBatch>, u64),
>)
    requires
        old(p).wf(),
    ensures
        final(p).wf(),
        partition_op_spec(*op, *old(p), *final(p), r),
{
    match op {
        PartitionOp::Snapshot => {
            let ghost p0 = *p;
            if p.buffer.row_count() > 0 {
                let mut detached = ColumnBatch::new();
                core::mem::swap(&mut p.buffer, &mut detached);
                let entry = SnapshotEntry { batch: detached, max_seq: p.max_sequence_seen };
                proof {
                    lemma_snaps_rows_push(p.snapshots@, entry);
                }
                p.snapshots.push(entry);
                proof {
                    assert(p.all_rows() =~= p0.all_rows());
                }
            } else {
                proof {
                    assert(rows_of(p.buffer@.0, p.buffer@.1) =~= Seq::<(u64, u64)>::empty());
                }
            }
            // Copy every pending snapshot for the persist job.
            let mut batches: Vec<ColumnBatch> = Vec::new();
            let mut any_rows = false;
            let n = p.snapshots.len();
            let mut i: usize = 0;
            proof {
                assert(p.snapshots@.take(0) =~= Seq::<SnapshotEntry>::empty());
                assert(batches_rows(batches@) =~= snaps_rows(p.snapshots@.take(0)));
            }
            while i < n
                invariant
                    i <= n,
                    n == p.snapshots@.len(),
                    p.wf(),
                    batches_rows(batches@) == snaps_rows(p.snapshots@.take(i as int)),
                    any_rows == (snaps_rows(p.snapshots@.take(i as int)).len() > 0),
                decreases n - i,
            {
                let mut copy = ColumnBatch::new();
                proof {
                    assert(p.snapshots@[i as int].batch.wf());
                }
                copy.merge(&p.snapshots[i].batch);
                if copy.row_count() > 0 {
                    any_rows = true;
                }
                proof {
                    lemma_batches_rows_push(batches@, copy);
                    lemma_snaps_rows_snoc(p.snapshots@, i as int);
                    assert(rows_of(copy@.0, copy@.1) =~= rows_of(
                        p.snapshots@[i as int].batch@.0,
                        p.snapshots@[i as int].batch@.1,
                    ));
                }
                batches.push(copy);
                i += 1;
            }
            proof {
                assert(p.snapshots@.take(n as int) =~= p.snapshots@);
                assert(p.all_rows() =~= snaps_rows(p.snapshots@));
            }
            if any_rows {
                match p.max_sequence_seen {
                    Some(mx) => {
                        p.in_progress_persistence_max = Some(mx);
                        return Some((batches, mx));
                    },
                    None => {
                        return None;
                    },
                }
            }
            None
        },
        PartitionOp::MarkPersisted(v) => {
            let v = *v;
            p.completed_persistence_max = match p.completed_persistence_max {
                None => Some(v),
                Some(m) => if v > m {
                    Some(v)
                } else {
                    Some(m)
                },
            };
            p.in_progress_persistence_max = match p.in_progress_persistence_max {
                None => None,
                Some(m) => if m <= v {
                    None
                } else {
                    Some(m)
                },
            };
            let ghost orig = p.snapshots@;
            let n0 = p.snapshots.len();
            let mut kept: Vec<SnapshotEntry> = Vec::new();
            let mut i: usize = 0;
            proof {
                assert(orig.take(0) =~= Seq::<SnapshotEntry>::empty());
                assert(kept@ =~= drop_persisted(orig.take(0), v));
                assert(p.snapshots@ =~= orig.skip(0));
            }
            while p.snapshots.len() > 0
                invariant
                    n0 == orig.len(),
                    i <= n0,
                    i + p.snapshots@.len() == orig.len(),
                    p.snapshots@ == orig.skip(i as int),
                    p.partition_key@ == old(p).partition_key@,
                    p.partition_key.wf(),
                    p.buffer == old(p).buffer,
                    p.buffer.wf(),
                    p.partition_id == old(p).partition_id,
                    p.max_sequence_seen == old(p).max_sequence_seen,
                    p.completed_persistence_max == Some(
                        opt_max(old(p).completed_persistence_max, v),
                    ),
                    p.in_progress_persistence_max == (match old(p).in_progress_persistence_max {
                        None => None::<u64>,
                        Some(m) => if m <= v {
                            None
                        } else {
                            Some(m)
                        },
                    }),
                    forall|j: int| 0 <= j < orig.len() ==> (#[trigger] orig[j]).batch.wf(),
                    kept@ == drop_persisted(orig.take(i as int), v),
                    forall|j: int| 0 <= j < kept@.len() ==> (#[trigger] kept@[j]).batch.wf(),
                decreases p.snapshots@.len(),
            {
                let e = p.snapshots.remove(0);
                proof {
                    assert(e == orig[i as int]);
                    assert(p.snapshots@ =~= orig.skip(i + 1));
                    lemma_drop_persisted_snoc(orig, i as int, v);
                }
                let keep = match &e.max_seq {
                    None => true,
                    Some(m) => *m > v,
                };
                if keep {
                    proof {
                        assert(kept@.push(e) =~= drop_persisted(orig.take(i + 1), v));
                    }
                    kept.push(e);
                } else {
                    proof {
                        assert(kept@ =~= drop_persisted(orig.take(i + 1), v));
                    }
                }
                i += 1;
            }
            proof {
                assert(orig.take(i as int) =~= orig);
            }
            p.snapshots = kept;
            None
        },
        PartitionOp::ResolveId(pid) => {
            p.partition_id = Some(*pid);
            None
        },
    }
}


/// The partition a triple names, if the whole path to it exists.
pub open spec fn nss_partition(s: Seq<NamespaceNode>, ns: u64, t: u64, k: Seq<u8>) -> Option<
    PartitionData,
> {
    match find_ns(s, ns) {
        None => None,
        Some(nn) => match find_table(nn.tables@, t) {
            None => None,
            Some(tn) => find_part(tn.partitions@, k),
        },
    }
}


/// The `(namespace, table, key)` triple of every partition under a
/// table node, in list order.
pub open spec fn parts_triples(ns: u64, t: u64, ps: Seq<PartitionData>) -> Seq<
    (u64, u64, Seq<u8>),
>
    decreases ps.len(),
{
    if ps.len() == 0 {
        Seq::empty()
    } else {
        seq![(ns, t, ps[0].partition_key@)] + parts_triples(ns, t, ps.drop_first())
    }
}

/// The triples of every partition under a namespace node.
pub open spec fn tables_triples(ns: u64, ts: Seq<TableNode>) -> Seq<(u64, u64, Seq<u8>)>
    decreases ts.len(),
{
    if ts.len() == 0 {
        Seq::empty()
    } else {
        parts_triples(ns, ts[0].table_id.0, ts[0].partitions@) + tables_triples(
            ns,
            ts.drop_first(),
        )
    }
}

/// The triples of every partition in the tree, namespaces in list order,
/// tables and partitions within them likewise.
pub open spec fn nss_triples(s: Seq<NamespaceNode>) -> Seq<(u64, u64, Seq<u8>)>
    decreases s.len(),
{
    if s.len() == 0 {
        Seq::empty()
    } else {
        tables_triples(s[0].namespace_id.0, s[0].tables@) + nss_triples(s.drop_first())
    }
}

/// The triples an enumeration returned, as their models.
pub open spec fn triples_view(r: Seq<(NamespaceId, TableId, PartitionKey)>) -> Seq<
    (u64, u64, Seq<u8>),
> {
    Seq::new(r.len(), |i: int| (r[i].0.0, r[i].1.0, r[i].2@))
}

proof fn lemma_parts_triples_snoc(ns: u64, t: u64, ps: Seq<PartitionData>, i: int)
    requires
        0 <= i < ps.len(),
    ensures
        parts_triples(ns, t, ps.take(i + 1)) == parts_triples(ns, t, ps.take(i)) + seq![
            (ns, t, ps[i].partition_key@),
        ],
    decreases i,
{
    if i == 0 {
        assert(ps.take(1) =~= seq![ps[0]]);
        assert(seq![ps[0]].drop_first() =~= Seq::<PartitionData>::empty());
        assert(ps.take(0) =~= Seq::<PartitionData>::empty());
        assert(parts_triples(ns, t, Seq::<PartitionData>::empty()) =~= Seq::<
            (u64, u64, Seq<u8>),
        >::empty());
        assert(parts_triples(ns, t, ps.take(1)) =~= seq![(ns, t, ps[0].partition_key@)]);
        assert(parts_triples(ns, t, ps.take(0)) + seq![(ns, t, ps[0].partition_key@)] =~= seq![
            (ns, t, ps[0].partition_key@),
        ]);
    } else {
        let d = ps.drop_first();
        lemma_parts_triples_snoc(ns, t, d, i - 1);
        assert(ps.take(i + 1).drop_first() =~= d.take(i));
        assert(ps.take(i).drop_first() =~= d.take(i - 1));
        assert(ps.take(i + 1)[0] == ps[0]);
        assert(ps.take(i)[0] == ps[0]);
        assert(d[i - 1] == ps[i]);
        assert(seq![(ns, t, ps[0].partition_key@)] + (parts_triples(ns, t, d.take(i - 1))
            + seq![(ns, t, ps[i].partition_key@)]) =~= (seq![(ns, t, ps[0].partition_key@)]
            + parts_triples(ns, t, d.take(i - 1))) + seq![(ns, t, ps[i].partition_key@)]);
    }
}

proof fn lemma_tables_triples_snoc(ns: u64, ts: Seq<TableNode>, i: int)
    requires
        0 <= i < ts.len(),
    ensures
        tables_triples(ns, ts.take(i + 1)) == tables_triples(ns, ts.take(i)) + parts_triples(
            ns,
            ts[i].table_id.0,
            ts[i].partitions@,
        ),
    decreases i,
{
    let piece = parts_triples(ns, ts[i].table_id.0, ts[i].partitions@);
    if i == 0 {
        assert(ts.take(1) =~= seq![ts[0]]);
        assert(seq![ts[0]].drop_first() =~= Seq::<TableNode>::empty());
        assert(ts.take(0) =~= Seq::<TableNode>::empty());
        assert(tables_triples(ns, Seq::<TableNode>::empty()) =~= Seq::<
            (u64, u64, Seq<u8>),
        >::empty());
        assert(tables_triples(ns, ts.take(1)) =~= piece);
        assert(tables_triples(ns, ts.take(0)) + piece =~= piece);
    } else {
        let d = ts.drop_first();
        lemma_tables_triples_snoc(ns, d, i - 1);
        assert(ts.take(i + 1).drop_first() =~= d.take(i));
        assert(ts.take(i).drop_first() =~= d.take(i - 1));
        assert(ts.take(i + 1)[0] == ts[0]);
        assert(ts.take(i)[0] == ts[0]);
        assert(d[i - 1] == ts[i]);
        let head = parts_triples(ns, ts[0].table_id.0, ts[0].partitions@);
        assert(head + (tables_triples(ns, d.take(i - 1)) + piece) =~= (head + tables_triples(
            ns,
            d.take(i - 1),
        )) + piece);
    }
}

proof fn lemma_nss_triples_snoc(s: Seq<NamespaceNode>, i: int)
    requires
        0 <= i < s.len(),
    ensures
        nss_triples(s.take(i + 1)) == nss_triples(s.take(i)) + tables_triples(
            s[i].namespace_id.0,
            s[i].tables@,
        ),
    decreases i,
{
    let piece = tables_triples(s[i].namespace_id.0, s[i].tables@);
    if i == 0 {
        assert(s.take(1) =~= seq![s[0]]);
        assert(seq![s[0]].drop_first() =~= Seq::<NamespaceNode>::empty());
        assert(s.take(0) =~= Seq::<NamespaceNode>::empty());
        assert(nss_triples(Seq::<NamespaceNode>::empty()) =~= Seq::<
            (u64, u64, Seq<u8>),
        >::empty());
        assert(nss_triples(s.take(1)) =~= piece);
        assert(nss_triples(s.take(0)) + piece =~= piece);
    } else {
        let d = s.drop_first();
        lemma_nss_triples_snoc(d, i - 1);
        assert(s.take(i + 1).drop_first() =~= d.take(i));
        assert(s.take(i).drop_first() =~= d.take(i - 1));
        assert(s.take(i + 1)[0] == s[0]);
        assert(s.take(i)[0] == s[0]);
        assert(d[i - 1] == s[i]);
        let head = tables_triples(s[0].namespace_id.0, s[0].tables@);
        assert(head + (nss_triples(d.take(i - 1)) + piece) =~= (head + nss_triples(
            d.take(i - 1),
        )) + piece);
    }
}

/// A partition the lookup finds appears in the flattened triple list.
proof fn lemma_parts_triples_member(ns: u64, t: u64, ps: Seq<PartitionData>, k: Seq<u8>)
    requires
        find_part(ps, k) is Some,
    ensures
        exists|idx: int| 0 <= idx < parts_triples(ns, t, ps).len() && parts_triples(
            ns,
            t,
            ps,
        )[idx] == (ns, t, k),
    decreases ps.len(),
{
    if ps[0].partition_key@ == k {
        assert(parts_triples(ns, t, ps)[0] == (ns, t, k));
    } else {
        let d = ps.drop_first();
        lemma_parts_triples_member(ns, t, d, k);
        let idx = choose|idx: int|
            0 <= idx < parts_triples(ns, t, d).len() && parts_triples(ns, t, d)[idx] == (
            ns,
            t,
            k,
        );
        assert(parts_triples(ns, t, ps)[1 + idx] == (ns, t, k));
    }
}

proof fn lemma_tables_triples_member(ns: u64, ts: Seq<TableNode>, t: u64, k: Seq<u8>)
    requires
        match find_table(ts, t) {
            Some(tn) => find_part(tn.partitions@, k) is Some,
            None => false,
        },
    ensures
        exists|idx: int| 0 <= idx < tables_triples(ns, ts).len() && tables_triples(ns, ts)[idx]
            == (ns, t, k),
    decreases ts.len(),
{
    if ts[0].table_id.0 == t {
        lemma_parts_triples_member(ns, t, ts[0].partitions@, k);
        let idx = choose|idx: int|
            0 <= idx < parts_triples(ns, t, ts[0].partitions@).len() && parts_triples(
                ns,
                t,
                ts[0].partitions@,
            )[idx] == (ns, t, k);
        assert(tables_triples(ns, ts)[idx] == (ns, t, k));
    } else {
        let d = ts.drop_first();
        lemma_tables_triples_member(ns, d, t, k);
        let idx = choose|idx: int|
            0 <= idx < tables_triples(ns, d).len() && tables_triples(ns, d)[idx] == (ns, t, k);
        let off = parts_triples(ns, ts[0].table_id.0, ts[0].partitions@).len() as int;
        assert(tables_triples(ns, ts)[off + idx] == (ns, t, k));
    }
}

/// Every partition the tree holds appears in the flattened triple list, so
/// an enumeration built from that list misses none.
pub proof fn lemma_nss_triples_member(s: Seq<NamespaceNode>, ns: u64, t: u64, k: Seq<u8>)
    requires
        nss_partition(s, ns, t, k) is Some,
    ensures
        exists|idx: int| 0 <= idx < nss_triples(s).len() && nss_triples(s)[idx] == (ns, t, k),
    decreases s.len(),
{
    if s[0].namespace_id.0 == ns {
        lemma_tables_triples_member(ns, s[0].tables@, t, k);
        let idx = choose|idx: int|
            0 <= idx < tables_triples(ns, s[0].tables@).len() && tables_triples(
                ns,
                s[0].tables@,
            )[idx] == (ns, t, k);
        assert(nss_triples(s)[idx] == (ns, t, k));
    } else {
        let d = s.drop_first();
        lemma_nss_triples_member(d, ns, t, k);
        let idx = choose|idx: int|
            0 <= idx < nss_triples(d).len() && nss_triples(d)[idx] == (ns, t, k);
        let off = tables_triples(s[0].namespace_id.0, s[0].tables@).len() as int;
        assert(nss_triples(s)[off + idx] == (ns, t, k));
    }
}

/// Runs one partition op at the leaf of the partitions list, if the key
/// exists; other partitions are untouched.
#[verifier::loop_isolation(false)]
fn mutate_in_parts(parts: &mut Vec<PartitionData>, key: &PartitionKey, op: &PartitionOp) -> (r:
    Option<Option<(Vec<ColumnBatch>, u64)>>)
    requires
        parts_wf(old(parts)@),
    ensures
        parts_wf(final(parts)@),
        forall|k: Seq<u8>| k != key@ ==> find_part(final(parts)@, k) == find_part(
            old(parts)@,
            k,
        ),
        match find_part(old(parts)@, key@) {
            None => r is None && final(parts)@ == old(parts)@,
            Some(p) => {
                &&& match r {
                    Some(out) => match find_part(final(parts)@, key@) {
                        Some(q) => partition_op_spec(*op, p, q, out),
                        None => false,
                    },
                    None => false,
                }
            },
        },
{
    let n = parts.len();
    let mut i: usize = 0;
    while i < n
        invariant
            i <= n,
            n == parts@.len(),
            parts@ == old(parts)@,
            forall|j: int| 0 <= j < i ==> (#[trigger] parts@[j]).partition_key@ != key@,
        decreases n - i,
    {
        if parts[i].partition_key.eq_key(key) {
            let mut p = parts.remove(i);
            proof {
                assert(p.wf());
                lemma_find_part_present(old(parts)@, i as int, key@);
            }
            let ghost p_old = p;
            let out = run_partition_op(&mut p, op);
            parts.insert(i, p);
            proof {
                let k0 = i as int;
                assert(parts@ =~= old(parts)@.update(k0, p));
                assert forall|k: Seq<u8>| true implies find_part(parts@, k) == (if k == key@ {
                    Some(p)
                } else {
                    find_part(old(parts)@, k)
                }) by {
                    lemma_find_part_update(old(parts)@, k0, p, k);
                }
                assert forall|a: int, b: int|
                    0 <= a < b < parts@.len() implies (#[trigger] parts@[a]).partition_key@ != (
                #[trigger] parts@[b]).partition_key@ by {
                    assert(old(parts)@[a].partition_key@ != old(parts)@[b].partition_key@);
                }
                assert forall|j: int| 0 <= j < parts@.len() implies (#[trigger] parts@[
                j]).wf() by {
                    if j != k0 {
                        assert(old(parts)@[j].wf());
                    }
                }
            }
            return Some(out);
        }
        i += 1;
    }
    proof {
        lemma_find_part_absent(parts@, key@);
    }
    None
}

/// Runs one partition op under the table node with this id, if present.
#[verifier::loop_isolation(false)]
fn mutate_in_tables(
    tables: &mut Vec<TableNode>,
    t: TableId,
    key: &PartitionKey,
    op: &PartitionOp,
) -> (r: Option<Option<(Vec<ColumnBatch>, u64)>>)
    requires
        tables_wf(old(tables)@),
    ensures
        tables_wf(final(tables)@),
        forall|tq: u64| tq != t.0 ==> find_table(final(tables)@, tq) == find_table(
            old(tables)@,
            tq,
        ),
        match find_table(old(tables)@, t.0) {
            None => r is None && final(tables)@ == old(tables)@,
            Some(tn) => match find_table(final(tables)@, t.0) {
                None => false,
                Some(tn2) => {
                    &&& tn2.table_id == tn.table_id
                    &&& forall|k: Seq<u8>| k != key@ ==> find_part(tn2.partitions@, k)
                        == find_part(tn.partitions@, k)
                    &&& match find_part(tn.partitions@, key@) {
                        None => r is None && tn2.partitions@ == tn.partitions@,
                        Some(p) => match r {
                            Some(out) => match find_part(tn2.partitions@, key@) {
                                Some(q) => partition_op_spec(*op, p, q, out),
                                None => false,
                            },
                            None => false,
                        },
                    }
                },
            },
        },
{
    let n = tables.len();
    let mut i: usize = 0;
    while i < n
        invariant
            i <= n,
            n == tables@.len(),
            tables@ == old(tables)@,
            forall|j: int| 0 <= j < i ==> (#[trigger] tables@[j]).table_id.0 != t.0,
        decreases n - i,
    {
        if tables[i].table_id.0 == t.0 {
            let mut tn = tables.remove(i);
            proof {
                assert(parts_wf(tn.partitions@));
                lemma_find_table_present(old(tables)@, i as int, t.0);
            }
            let out = mutate_in_parts(&mut tn.partitions, key, op);
            tables.insert(i, tn);
            proof {
                let k0 = i as int;
                assert(tables@ =~= old(tables)@.update(k0, tn));
                assert forall|tq: u64| true implies find_table(tables@, tq) == (if tq == t.0 {
                    Some(tn)
                } else {
                    find_table(old(tables)@, tq)
                }) by {
                    lemma_find_table_update(old(tables)@, k0, tn, tq);
                }
                assert forall|a: int, b: int|
                    0 <= a < b < tables@.len() implies (#[trigger] tables@[a]).table_id.0 != (
                #[trigger] tables@[b]).table_id.0 by {
                    assert(old(tables)@[a].table_id.0 != old(tables)@[b].table_id.0);
                }
                assert forall|j: int| 0 <= j < tables@.len() implies parts_wf(
                    (#[trigger] tables@[j]).partitions@,
                ) by {
                    if j != k0 {
                        assert(parts_wf(old(tables)@[j].partitions@));
                    }
                }
            }
            return out;
        }
        i += 1;
    }
    proof {
        lemma_find_table_absent(tables@, t.0);
    }
    None
}

/// Runs one partition op under the namespace node with this id, if present.
#[verifier::loop_isolation(false)]
fn mutate_in_nss(
    nss: &mut Vec<NamespaceNode>,
    ns: NamespaceId,
    t: TableId,
    key: &PartitionKey,
    op: &PartitionOp,
) -> (r: Option<Option<(Vec<ColumnBatch>, u64)>>)
    requires
        nss_wf(old(nss)@),
    ensures
        nss_wf(final(nss)@),
        forall|nsq: u64, tq: u64, k: Seq<u8>| !(nsq == ns.0 && tq == t.0 && k == key@)
            ==> #[trigger] nss_partition(final(nss)@, nsq, tq, k) == nss_partition(
            old(nss)@,
            nsq,
            tq,
            k,
        ),
        match nss_partition(old(nss)@, ns.0, t.0, key@) {
            None => r is None && nss_partition(final(nss)@, ns.0, t.0, key@) == nss_partition(
                old(nss)@,
                ns.0,
                t.0,
                key@,
            ),
            Some(p) => match r {
                Some(out) => match nss_partition(final(nss)@, ns.0, t.0, key@) {
                    Some(q) => partition_op_spec(*op, p, q, out),
                    None => false,
                },
                None => false,
            },
        },
{
    let n = nss.len();
    let mut i: usize = 0;
    while i < n
        invariant
            i <= n,
            n == nss@.len(),
            nss@ == old(nss)@,
            forall|j: int| 0 <= j < i ==> (#[trigger] nss@[j]).namespace_id.0 != ns.0,
        decreases n - i,
    {
        if nss[i].namespace_id.0 == ns.0 {
            let mut nn = nss.remove(i);
            proof {
                assert(tables_wf(nn.tables@));
                lemma_find_ns_present(old(nss)@, i as int, ns.0);
            }
            let out = mutate_in_tables(&mut nn.tables, t, key, op);
            nss.insert(i, nn);
            proof {
                let k0 = i as int;
                assert(nss@ =~= old(nss)@.update(k0, nn));
                assert forall|nsq: u64| true implies find_ns(nss@, nsq) == (if nsq == ns.0 {
                    Some(nn)
                } else {
                    find_ns(old(nss)@, nsq)
                }) by {
                    lemma_find_ns_update(old(nss)@, k0, nn, nsq);
                }
                assert forall|a: int, b: int|
                    0 <= a < b < nss@.len() implies (#[trigger] nss@[a]).namespace_id.0 != (
                #[trigger] nss@[b]).namespace_id.0 by {
                    assert(old(nss)@[a].namespace_id.0 != old(nss)@[b].namespace_id.0);
                }
                assert forall|j: int| 0 <= j < nss@.len() implies tables_wf(
                    (#[trigger] nss@[j]).tables@,
                ) by {
                    if j != k0 {
                        assert(tables_wf(old(nss)@[j].tables@));
                    }
                }
            }
            return out;
        }
        i += 1;
    }
    proof {
        lemma_find_ns_absent(nss@, ns.0);
    }
    None
}


impl BufferTree {
    /// Detaches the partition's buffer and returns a copy of every snapshot
    /// not yet persisted, with the greatest sequence number they carry: the
    /// input of one persist job.  Nothing is returned when the partition is
    /// unknown or empty.  The partition's rows are unchanged; a persist for
    /// the returned sequence number is recorded as in progress.
    pub fn snapshot_partition(&mut self, ns: NamespaceId, t: TableId, key: &PartitionKey) -> (r:
        Option<(Vec<ColumnBatch>, u64)>)
        requires
            old(self).wf(),
        ensures
            final(self).wf(),
            forall|nsq: u64, tq: u64, k: Seq<u8>| !(nsq == ns.0 && tq == t.0 && k == key@)
                ==> #[trigger] nss_partition(final(self).nss(), nsq, tq, k) == nss_partition(
                old(self).nss(),
                nsq,
                tq,
                k,
            ),
            match nss_partition(old(self).nss(), ns.0, t.0, key@) {
                None => r is None && nss_partition(final(self).nss(), ns.0, t.0, key@)
                    == nss_partition(old(self).nss(), ns.0, t.0, key@),
                Some(p) => match nss_partition(final(self).nss(), ns.0, t.0, key@) {
                    Some(q) => partition_op_spec(PartitionOp::Snapshot, p, q, r),
                    None => false,
                },
            },
    {
        match mutate_in_nss(&mut self.namespaces, ns, t, key, &PartitionOp::Snapshot) {
            Some(out) => out,
            None => None,
        }
    }

    /// Records that every sequence number at or below `seq` in this
    /// partition is durable in object storage: raises the completed
    /// watermark (never lowering it), drops the snapshots it covers, and
    /// clears an in-progress mark it covers.
    pub fn mark_persisted(&mut self, ns: NamespaceId, t: TableId, key: &PartitionKey, seq: u64)
        requires
            old(self).wf(),
        ensures
            final(self).wf(),
            forall|nsq: u64, tq: u64, k: Seq<u8>| !(nsq == ns.0 && tq == t.0 && k == key@)
                ==> #[trigger] nss_partition(final(self).nss(), nsq, tq, k) == nss_partition(
                old(self).nss(),
                nsq,
                tq,
                k,
            ),
            match nss_partition(old(self).nss(), ns.0, t.0, key@) {
                None => nss_partition(final(self).nss(), ns.0, t.0, key@) == nss_partition(
                    old(self).nss(),
                    ns.0,
                    t.0,
                    key@,
                ),
                Some(p) => match nss_partition(final(self).nss(), ns.0, t.0, key@) {
                    Some(q) => partition_op_spec(
                        PartitionOp::MarkPersisted(seq),
                        p,
                        q,
                        None,
                    ),
                    None => false,
                },
            },
    {
        let _ = mutate_in_nss(&mut self.namespaces, ns, t, key, &PartitionOp::MarkPersisted(seq));
    }

    /// Stores the catalog id the resolver returned for this partition, and
    /// caches it for later lookups.
    pub fn resolve_partition(
        &mut self,
        ns: NamespaceId,
        t: TableId,
        key: &PartitionKey,
        pid: PartitionId,
    )
        requires
            old(self).wf(),
            key.wf(),
        ensures
            final(self).wf(),
            forall|nsq: u64, tq: u64, k: Seq<u8>| !(nsq == ns.0 && tq == t.0 && k == key@)
                ==> #[trigger] nss_partition(final(self).nss(), nsq, tq, k) == nss_partition(
                old(self).nss(),
                nsq,
                tq,
                k,
            ),
            final(self).cache_view().spec_get(ns.0, t.0, key@) == Some(pid.0),
            match nss_partition(old(self).nss(), ns.0, t.0, key@) {
                None => nss_partition(final(self).nss(), ns.0, t.0, key@) == nss_partition(
                    old(self).nss(),
                    ns.0,
                    t.0,
                    key@,
                ),
                Some(p) => match nss_partition(final(self).nss(), ns.0, t.0, key@) {
                    Some(q) => partition_op_spec(PartitionOp::ResolveId(pid), p, q, None),
                    None => false,
                },
            },
    {
        let _ = mutate_in_nss(&mut self.namespaces, ns, t, key, &PartitionOp::ResolveId(pid));
        self.cache.insert(
            crate::partition_cache::CacheEntry {
                namespace_id: ns,
                table_id: t,
                partition_key: clone_key(key),
                partition_id: pid,
            },
        );
    }

    /// Whether the partition's completed-persistence watermark has reached
    /// `seq`: the condition under which a log record at `seq` for this
    /// partition no longer needs its segment.
    #[verifier::loop_isolation(false)]
    pub fn is_persisted_past(
        &self,
        ns: NamespaceId,
        t: TableId,
        key: &PartitionKey,
        seq: u64,
    ) -> (r: bool)
        requires
            self.wf(),
        ensures
            r == match nss_partition(self.nss(), ns.0, t.0, key@) {
                None => false,
                Some(p) => match p.completed_persistence_max {
                    None => false,
                    Some(m) => m >= seq,
                },
            },
    {
        let n = self.namespaces.len();
        let mut a: usize = 0;
        while a < n
            invariant
                a <= n,
                n == self.namespaces@.len(),
                self.wf(),
                forall|j: int| 0 <= j < a ==> (#[trigger] self.namespaces@[j]).namespace_id.0
                    != ns.0,
            decreases n - a,
        {
            if self.namespaces[a].namespace_id.0 == ns.0 {
                proof {
                    lemma_find_ns_present(self.namespaces@, a as int, ns.0);
                }
                let nn = &self.namespaces[a];
                let m = nn.tables.len();
                let mut b: usize = 0;
                while b < m
                    invariant
                        b <= m,
                        m == nn.tables@.len(),
                        tables_wf(nn.tables@),
                        forall|j: int| 0 <= j < b ==> (#[trigger] nn.tables@[j]).table_id.0
                            != t.0,
                    decreases m - b,
                {
                    if nn.tables[b].table_id.0 == t.0 {
                        proof {
                            lemma_find_table_present(nn.tables@, b as int, t.0);
                        }
                        let tn = &nn.tables[b];
                        let w = tn.partitions.len();
                        let mut c: usize = 0;
                        while c < w
                            invariant
                                c <= w,
                                w == tn.partitions@.len(),
                                parts_wf(tn.partitions@),
                                forall|j: int| 0 <= j < c ==> (#[trigger] tn.partitions@[
                                j]).partition_key@ != key@,
                            decreases w - c,
                        {
                            if tn.partitions[c].partition_key.eq_key(key) {
                                proof {
                                    lemma_find_part_present(tn.partitions@, c as int, key@);
                                }
                                return match tn.partitions[c].completed_persistence_max {
                                    None => false,
                                    Some(mark) => mark >= seq,
                                };
                            }
                            c += 1;
                        }
                        proof {
                            lemma_find_part_absent(tn.partitions@, key@);
                        }
                        return false;
                    }
                    b += 1;
                }
                proof {
                    lemma_find_table_absent(nn.tables@, t.0);
                }
                return false;
            }
            a += 1;
        }
        proof {
            lemma_find_ns_absent(self.namespaces@, ns.0);
        }
        false
    }

    /// Every partition currently in the tree, as `(namespace, table, key)`
    /// triples: namespaces in creation order, their tables and partitions
    /// likewise.  Exactly the live partitions, each once, each naming a
    /// partition the tree holds.
    #[verifier::loop_isolation(false)]
    pub fn partition_triples(&self) -> (r: Vec<(NamespaceId, TableId, PartitionKey)>)
        requires
            self.wf(),
        ensures
            triples_view(r@) == nss_triples(self.nss()),
            forall|i: int| 0 <= i < r@.len() ==> nss_partition(
                self.nss(),
                (#[trigger] r@[i]).0.0,
                r@[i].1.0,
                r@[i].2@,
            ) is Some && r@[i].2.wf(),
    {
        let mut r: Vec<(NamespaceId, TableId, PartitionKey)> = Vec::new();
        let n = self.namespaces.len();
        let mut a: usize = 0;
        proof {
            assert(self.nss().take(0) =~= Seq::<NamespaceNode>::empty());
            assert(triples_view(r@) =~= nss_triples(self.nss().take(0)));
        }
        while a < n
            invariant
                a <= n,
                n == self.namespaces@.len(),
                triples_view(r@) == nss_triples(self.nss().take(a as int)),
                forall|i: int| 0 <= i < r@.len() ==> nss_partition(
                    self.nss(),
                    (#[trigger] r@[i]).0.0,
                    r@[i].1.0,
                    r@[i].2@,
                ) is Some && r@[i].2.wf(),
            decreases n - a,
        {
            let nn = &self.namespaces[a];
            proof {
                lemma_find_ns_present(self.namespaces@, a as int, nn.namespace_id.0);
            }
            let m = nn.tables.len();
            let mut b: usize = 0;
            proof {
                assert(nn.tables@.take(0) =~= Seq::<TableNode>::empty());
                assert(tables_triples(nn.namespace_id.0, nn.tables@.take(0)) =~= Seq::<
                    (u64, u64, Seq<u8>),
                >::empty());
                assert(triples_view(r@) =~= nss_triples(self.nss().take(a as int))
                    + tables_triples(nn.namespace_id.0, nn.tables@.take(0)));
            }
            while b < m
                invariant
                    a < n,
                    b <= m,
                    m == nn.tables@.len(),
                    nn == &self.namespaces@[a as int],
                    find_ns(self.nss(), nn.namespace_id.0) == Some(*nn),
                    triples_view(r@) == nss_triples(self.nss().take(a as int)) + tables_triples(
                        nn.namespace_id.0,
                        nn.tables@.take(b as int),
                    ),
                    forall|i: int| 0 <= i < r@.len() ==> nss_partition(
                        self.nss(),
                        (#[trigger] r@[i]).0.0,
                        r@[i].1.0,
                        r@[i].2@,
                    ) is Some && r@[i].2.wf(),
                decreases m - b,
            {
                let tn = &nn.tables[b];
                proof {
                    assert(tables_wf(nn.tables@));
                    lemma_find_table_present(nn.tables@, b as int, tn.table_id.0);
                }
                let w = tn.partitions.len();
                let mut c: usize = 0;
                proof {
                    assert(tn.partitions@.take(0) =~= Seq::<PartitionData>::empty());
                    assert(parts_triples(
                        nn.namespace_id.0,
                        tn.table_id.0,
                        tn.partitions@.take(0),
                    ) =~= Seq::<(u64, u64, Seq<u8>)>::empty());
                    assert(triples_view(r@) =~= nss_triples(self.nss().take(a as int))
                        + tables_triples(nn.namespace_id.0, nn.tables@.take(b as int))
                        + parts_triples(nn.namespace_id.0, tn.table_id.0, tn.partitions@.take(0)));
                }
                while c < w
                    invariant
                        a < n,
                        b < m,
                        c <= w,
                        w == tn.partitions@.len(),
                        nn == &self.namespaces@[a as int],
                        tn == &nn.tables@[b as int],
                        find_ns(self.nss(), nn.namespace_id.0) == Some(*nn),
                        find_table(nn.tables@, tn.table_id.0) == Some(*tn),
                        triples_view(r@) == nss_triples(self.nss().take(a as int))
                            + tables_triples(nn.namespace_id.0, nn.tables@.take(b as int))
                            + parts_triples(
                            nn.namespace_id.0,
                            tn.table_id.0,
                            tn.partitions@.take(c as int),
                        ),
                        forall|i: int| 0 <= i < r@.len() ==> nss_partition(
                            self.nss(),
                            (#[trigger] r@[i]).0.0,
                            r@[i].1.0,
                            r@[i].2@,
                        ) is Some && r@[i].2.wf(),
                    decreases w - c,
                {
                    let p = &tn.partitions[c];
                    proof {
                        assert(parts_wf(tn.partitions@));
                        lemma_find_part_present(tn.partitions@, c as int, p.partition_key@);
                        lemma_parts_triples_snoc(
                            nn.namespace_id.0,
                            tn.table_id.0,
                            tn.partitions@,
                            c as int,
                        );
                    }
                    let entry = (nn.namespace_id, tn.table_id, clone_key(&p.partition_key));
                    proof {
                        assert(triples_view(r@.push(entry)) =~= triples_view(r@) + seq![
                            (nn.namespace_id.0, tn.table_id.0, p.partition_key@),
                        ]);
                        assert(triples_view(r@) + seq![
                            (nn.namespace_id.0, tn.table_id.0, p.partition_key@),
                        ] =~= nss_triples(self.nss().take(a as int)) + tables_triples(
                            nn.namespace_id.0,
                            nn.tables@.take(b as int),
                        ) + parts_triples(
                            nn.namespace_id.0,
                            tn.table_id.0,
                            tn.partitions@.take(c + 1),
                        ));
                    }
                    r.push(entry);
                    c += 1;
                }
                proof {
                    assert(tn.partitions@.take(w as int) =~= tn.partitions@);
                    lemma_tables_triples_snoc(nn.namespace_id.0, nn.tables@, b as int);
                    assert(triples_view(r@) =~= nss_triples(self.nss().take(a as int))
                        + tables_triples(nn.namespace_id.0, nn.tables@.take(b + 1)));
                }
                b += 1;
            }
            proof {
                assert(nn.tables@.take(m as int) =~= nn.tables@);
                lemma_nss_triples_snoc(self.nss(), a as int);
                assert(triples_view(r@) =~= nss_triples(self.nss().take(a + 1)));
            }
            a += 1;
        }
        proof {
            assert(self.nss().take(n as int) =~= self.nss());
        }
        r
    }
}


impl BufferTree {
    /// A query-time copy of one partition's data: every batch not yet
    /// persisted, the partition's catalog id if resolved, and the greatest
    /// sequence number known persisted.
    #[verifier::loop_isolation(false)]
    pub fn query_batches(&self, ns: NamespaceId, t: TableId, key: &PartitionKey) -> (r: Option<
        (Vec<ColumnBatch>, Option<PartitionId>, Option<u64>),
    >)
        requires
            self.wf(),
        ensures
            match nss_partition(self.nss(), ns.0, t.0, key@) {
                None => r is None,
                Some(p) => match r {
                    Some(out) => {
                        &&& batches_rows(out.0@) == p.all_rows()
                        &&& out.1 == p.partition_id
                        &&& out.2 == p.completed_persistence_max
                    },
                    None => false,
                },
            },
    {
        let n = self.namespaces.len();
        let mut a: usize = 0;
        while a < n
            invariant
                a <= n,
                n == self.namespaces@.len(),
                forall|j: int| 0 <= j < a ==> (#[trigger] self.namespaces@[j]).namespace_id.0
                    != ns.0,
            decreases n - a,
        {
            if self.namespaces[a].namespace_id.0 == ns.0 {
                proof {
                    lemma_find_ns_present(self.namespaces@, a as int, ns.0);
                }
                let nn = &self.namespaces[a];
                let m = nn.tables.len();
                let mut b: usize = 0;
                while b < m
                    invariant
                        b <= m,
                        m == nn.tables@.len(),
                        forall|j: int| 0 <= j < b ==> (#[trigger] nn.tables@[j]).table_id.0
                            != t.0,
                    decreases m - b,
                {
                    if nn.tables[b].table_id.0 == t.0 {
                        proof {
                            lemma_find_table_present(nn.tables@, b as int, t.0);
                        }
                        let tn = &nn.tables[b];
                        let w = tn.partitions.len();
                        let mut c: usize = 0;
                        while c < w
                            invariant
                                c <= w,
                                w == tn.partitions@.len(),
                                forall|j: int| 0 <= j < c ==> (#[trigger] tn.partitions@[
                                j]).partition_key@ != key@,
                            decreases w - c,
                        {
                            if tn.partitions[c].partition_key.eq_key(key) {
                                proof {
                                    lemma_find_part_present(tn.partitions@, c as int, key@);
                                    assert(tn.partitions@[c as int].wf());
                                }
                                let p = &tn.partitions[c];
                                let mut batches: Vec<ColumnBatch> = Vec::new();
                                let sn = p.snapshots.len();
                                let mut i: usize = 0;
                                proof {
                                    assert(p.snapshots@.take(0) =~= Seq::<
                                        SnapshotEntry,
                                    >::empty());
                                    assert(batches_rows(batches@) =~= snaps_rows(
                                        p.snapshots@.take(0),
                                    ));
                                }
                                while i < sn
                                    invariant
                                        i <= sn,
                                        sn == p.snapshots@.len(),
                                        p == &tn.partitions@[c as int],
                                        p.wf(),
                                        batches_rows(batches@) == snaps_rows(
                                            p.snapshots@.take(i as int),
                                        ),
                                    decreases sn - i,
                                {
                                    let mut copy = ColumnBatch::new();
                                    proof {
                                        assert(p.snapshots@[i as int].batch.wf());
                                    }
                                    copy.merge(&p.snapshots[i].batch);
                                    proof {
                                        lemma_batches_rows_push(batches@, copy);
                                        lemma_snaps_rows_snoc(p.snapshots@, i as int);
                                        assert(rows_of(copy@.0, copy@.1) =~= rows_of(
                                            p.snapshots@[i as int].batch@.0,
                                            p.snapshots@[i as int].batch@.1,
                                        ));
                                    }
                                    batches.push(copy);
                                    i += 1;
                                }
                                proof {
                                    assert(p.snapshots@.take(sn as int) =~= p.snapshots@);
                                }
                                let mut live = ColumnBatch::new();
                                live.merge(&p.buffer);
                                proof {
                                    lemma_batches_rows_push(batches@, live);
                                    assert(rows_of(live@.0, live@.1) =~= rows_of(
                                        p.buffer@.0,
                                        p.buffer@.1,
                                    ));
                                }
                                batches.push(live);
                                proof {
                                    assert(batches_rows(batches@) =~= tn.partitions@[
                                        c as int].all_rows());
                                }
                                return Some(
                                    (batches, p.partition_id, p.completed_persistence_max),
                                );
                            }
                            c += 1;
                        }
                        proof {
                            lemma_find_part_absent(tn.partitions@, key@);
                        }
                        return None;
                    }
                    b += 1;
                }
                proof {
                    lemma_find_table_absent(nn.tables@, t.0);
                }
                return None;
            }
            a += 1;
        }
        proof {
            lemma_find_ns_absent(self.namespaces@, ns.0);
        }
        None
    }
}

} // verus!
