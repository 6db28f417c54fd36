//! The canonical binary encoding of a sequenced write operation: the payload
//! stored inside each framed record of a write-ahead-log segment.
//!
//! Layout, all integers little endian:
//! `u64 sequence_number | u64 namespace_id | u32 key_len | key bytes |
//!  u32 table_count`, then per table
//! `u64 table_id | u32 row_count | row_count u64 times | row_count u64 values`.

use vstd::prelude::*;

use crate::bytes::{
    le_value, lemma_le_bytes_len, lemma_le_round_trip, lemma_le_value_bound, pow256, push_u32_le,
    push_u64_le, read_u32_le, read_u64_le, u32_le, u64_le,
};
use crate::ids::{printable_byte, PartitionKey, NamespaceId, SequenceNumber, TableId};
use crate::op::{batches_view, ColumnBatch, OpModel, SequencedOp, TableBatch, TableBatchModel, Write};

verus! {

// ---------------------------------------------------------------------------
// Encoding, as a function of the operation's model.
// ---------------------------------------------------------------------------

/// The little-endian bytes of each value, concatenated.
pub open spec fn flat_u64s(xs: Seq<u64>) -> Seq<u8>
    decreases xs.len(),
{
    if xs.len() == 0 {
        Seq::empty()
    } else {
        u64_le(xs[0]) + flat_u64s(xs.drop_first())
    }
}

/// One table's share of the payload.
pub open spec fn encode_table(t: TableBatchModel) -> Seq<u8> {
    u64_le(t.table_id) + u32_le(t.times.len() as u32) + flat_u64s(t.times) + flat_u64s(t.values)
}

/// The table shares, concatenated.
pub open spec fn encode_tables(ts: Seq<TableBatchModel>) -> Seq<u8>
    decreases ts.len(),
{
    if ts.len() == 0 {
        Seq::empty()
    } else {
        encode_table(ts[0]) + encode_tables(ts.drop_first())
    }
}

/// The whole payload of one record.
pub open spec fn encode_op_payload(m: OpModel) -> Seq<u8> {
    u64_le(m.sequence_number) + u64_le(m.namespace_id) + u32_le(m.partition_key.len() as u32)
        + m.partition_key + u32_le(m.tables.len() as u32) + encode_tables(m.tables)
}

// ---------------------------------------------------------------------------
// Parsing, as a function of the bytes.  Each parser yields the value and the
// bytes it left unconsumed; the payload parser insists on consuming all of
// them, so a payload denotes at most one operation.
// ---------------------------------------------------------------------------

pub open spec fn parse_u32p(s: Seq<u8>) -> Option<(u32, Seq<u8>)> {
    if s.len() >= 4 {
        Some((le_value(s.subrange(0, 4)) as u32, s.skip(4)))
    } else {
        None
    }
}

pub open spec fn parse_u64p(s: Seq<u8>) -> Option<(u64, Seq<u8>)> {
    if s.len() >= 8 {
        Some((le_value(s.subrange(0, 8)) as u64, s.skip(8)))
    } else {
        None
    }
}

pub open spec fn parse_u64s(s: Seq<u8>, n: nat) -> Option<(Seq<u64>, Seq<u8>)>
    decreases n,
{
    if n == 0 {
        Some((Seq::empty(), s))
    } else {
        match parse_u64p(s) {
            None => None,
            Some((x, rest)) => match parse_u64s(rest, (n - 1) as nat) {
                None => None,
                Some((xs, rest2)) => Some((seq![x] + xs, rest2)),
            },
        }
    }
}

pub open spec fn parse_table(s: Seq<u8>) -> Option<(TableBatchModel, Seq<u8>)> {
    match parse_u64p(s) {
        None => None,
        Some((table_id, s1)) => match parse_u32p(s1) {
            None => None,
            Some((row_count, s2)) => match parse_u64s(s2, row_count as nat) {
                None => None,
                Some((times, s3)) => match parse_u64s(s3, row_count as nat) {
                    None => None,
                    Some((values, s4)) => Some(
                        (TableBatchModel { table_id, times, values }, s4),
                    ),
                },
            },
        },
    }
}

pub open spec fn parse_tables(s: Seq<u8>, n: nat) -> Option<(Seq<TableBatchModel>, Seq<u8>)>
    decreases n,
{
    if n == 0 {
        Some((Seq::empty(), s))
    } else {
        match parse_table(s) {
            None => None,
            Some((t, rest)) => match parse_tables(rest, (n - 1) as nat) {
                None => None,
                Some((ts, rest2)) => Some((seq![t] + ts, rest2)),
            },
        }
    }
}

/// The operation a payload denotes, if any.  A payload that has trailing
/// bytes, an unprintable partition key, or too few bytes denotes none.
pub open spec fn parse_op_payload(s: Seq<u8>) -> Option<OpModel> {
    match parse_u64p(s) {
        None => None,
        Some((sequence_number, s1)) => match parse_u64p(s1) {
            None => None,
            Some((namespace_id, s2)) => match parse_u32p(s2) {
                None => None,
                Some((key_len, s3)) => if s3.len() >= key_len && (forall|i: int|
                    0 <= i < key_len ==> printable_byte(s3[i])) {
                    let key = s3.take(key_len as int);
                    let s4 = s3.skip(key_len as int);
                    match parse_u32p(s4) {
                        None => None,
                        Some((table_count, s5)) => match parse_tables(s5, table_count as nat) {
                            None => None,
                            Some((tables, s6)) => if s6.len() == 0 {
                                Some(
                                    OpModel {
                                        sequence_number,
                                        namespace_id,
                                        partition_key: key,
                                        tables,
                                    },
                                )
                            } else {
                                None
                            },
                        },
                    }
                } else {
                    None
                },
            },
        },
    }
}

// ---------------------------------------------------------------------------
// Round trip: parsing an encoding yields the encoded operation.
// ---------------------------------------------------------------------------

pub proof fn lemma_parse_u32_le(v: u32, rest: Seq<u8>)
    ensures
        parse_u32p(u32_le(v) + rest) == Some((v, rest)),
{
    lemma_le_bytes_len(v as nat, 4);
    let s = u32_le(v) + rest;
    assert(s.subrange(0, 4) =~= u32_le(v));
    assert(s.skip(4) =~= rest);
    assert(pow256(4) == 0x1_0000_0000) by {
        reveal_with_fuel(pow256, 5);
    }
    lemma_le_round_trip(v as nat, 4);
}

pub proof fn lemma_parse_u64_le(v: u64, rest: Seq<u8>)
    ensures
        parse_u64p(u64_le(v) + rest) == Some((v, rest)),
{
    lemma_le_bytes_len(v as nat, 8);
    let s = u64_le(v) + rest;
    assert(s.subrange(0, 8) =~= u64_le(v));
    assert(s.skip(8) =~= rest);
    assert(pow256(8) == 0x1_0000_0000_0000_0000) by {
        reveal_with_fuel(pow256, 9);
    }
    lemma_le_round_trip(v as nat, 8);
}

pub proof fn lemma_parse_u64s_flat(xs: Seq<u64>, rest: Seq<u8>)
    ensures
        parse_u64s(flat_u64s(xs) + rest, xs.len()) == Some((xs, rest)),
    decreases xs.len(),
{
    if xs.len() == 0 {
        assert(flat_u64s(xs) + rest =~= rest);
    } else {
        let tail = xs.drop_first();
        assert(flat_u64s(xs) + rest =~= u64_le(xs[0]) + (flat_u64s(tail) + rest));
        lemma_parse_u64_le(xs[0], flat_u64s(tail) + rest);
        lemma_parse_u64s_flat(tail, rest);
        assert(seq![xs[0]] + tail =~= xs);
    }
}

pub proof fn lemma_parse_table_encode(t: TableBatchModel, rest: Seq<u8>)
    requires
        t.wf(),
        t.times.len() <= u32::MAX,
    ensures
        parse_table(encode_table(t) + rest) == Some((t, rest)),
{
    let n = t.times.len() as u32;
    let after_id = u32_le(n) + (flat_u64s(t.times) + (flat_u64s(t.values) + rest));
    assert(encode_table(t) + rest =~= u64_le(t.table_id) + after_id);
    lemma_parse_u64_le(t.table_id, after_id);
    let after_count = flat_u64s(t.times) + (flat_u64s(t.values) + rest);
    assert(after_id =~= u32_le(n) + after_count);
    lemma_parse_u32_le(n, after_count);
    lemma_parse_u64s_flat(t.times, flat_u64s(t.values) + rest);
    lemma_parse_u64s_flat(t.values, rest);
}

pub proof fn lemma_parse_tables_encode(ts: Seq<TableBatchModel>, rest: Seq<u8>)
    requires
        forall|i: int| 0 <= i < ts.len() ==> (#[trigger] ts[i]).wf(),
        forall|i: int| 0 <= i < ts.len() ==> (#[trigger] ts[i]).times.len() <= u32::MAX,
    ensures
        parse_tables(encode_tables(ts) + rest, ts.len()) == Some((ts, rest)),
    decreases ts.len(),
{
    if ts.len() == 0 {
        assert(encode_tables(ts) + rest =~= rest);
    } else {
        let tail = ts.drop_first();
        assert(encode_tables(ts) + rest =~= encode_table(ts[0]) + (encode_tables(tail) + rest));
        lemma_parse_table_encode(ts[0], encode_tables(tail) + rest);
        lemma_parse_tables_encode(tail, rest);
        assert(seq![ts[0]] + tail =~= ts);
    }
}

/// Round trip: a well-formed, encodable operation is exactly what its
/// payload parses back to.
pub proof fn lemma_parse_op_encode(m: OpModel)
    requires
        m.wf(),
        m.encodable(),
    ensures
        parse_op_payload(encode_op_payload(m)) == Some(m),
{
    let key_len = m.partition_key.len() as u32;
    let table_count = m.tables.len() as u32;
    let s2 = u32_le(key_len) + (m.partition_key + (u32_le(table_count) + encode_tables(m.tables)));
    let s1 = u64_le(m.namespace_id) + s2;
    assert(encode_op_payload(m) =~= u64_le(m.sequence_number) + s1);
    lemma_parse_u64_le(m.sequence_number, s1);
    lemma_parse_u64_le(m.namespace_id, s2);
    let s3 = m.partition_key + (u32_le(table_count) + encode_tables(m.tables));
    lemma_parse_u32_le(key_len, s3);
    assert(s3.len() >= key_len);
    assert forall|i: int| 0 <= i < key_len implies printable_byte(s3[i]) by {
        assert(s3[i] == m.partition_key[i]);
    }
    assert(s3.take(key_len as int) =~= m.partition_key);
    let s4 = u32_le(table_count) + encode_tables(m.tables);
    assert(s3.skip(key_len as int) =~= s4);
    lemma_parse_u32_le(table_count, encode_tables(m.tables));
    assert(encode_tables(m.tables) =~= encode_tables(m.tables) + Seq::<u8>::empty());
    lemma_parse_tables_encode(m.tables, Seq::empty());
    assert(parse_tables(encode_tables(m.tables), m.tables.len()) == Some(
        (m.tables, Seq::<u8>::empty()),
    ));
}

// ---------------------------------------------------------------------------
// Splitting an encoding at a prefix, for the loops below.
// ---------------------------------------------------------------------------

pub proof fn lemma_flat_u64s_snoc(xs: Seq<u64>, i: int)
    requires
        0 <= i < xs.len(),
    ensures
        flat_u64s(xs.take(i + 1)) == flat_u64s(xs.take(i)) + u64_le(xs[i]),
    decreases i,
{
    if i == 0 {
        assert(xs.take(1) =~= seq![xs[0]]);
        assert(seq![xs[0]].drop_first() =~= Seq::<u64>::empty());
        assert(xs.take(0) =~= Seq::<u64>::empty());
        assert(flat_u64s(Seq::<u64>::empty()) =~= Seq::<u8>::empty());
        assert(flat_u64s(xs.take(1)) =~= u64_le(xs[0]));
        assert(flat_u64s(xs.take(0)) + u64_le(xs[0]) =~= u64_le(xs[0]));
    } else {
        let d = xs.drop_first();
        lemma_flat_u64s_snoc(d, i - 1);
        assert(xs.take(i + 1).drop_first() =~= d.take(i));
        assert(xs.take(i).drop_first() =~= d.take(i - 1));
        assert(xs.take(i + 1)[0] == xs[0]);
        assert(xs.take(i)[0] == xs[0]);
        assert(d[i - 1] == xs[i]);
        assert(u64_le(xs[0]) + (flat_u64s(d.take(i - 1)) + u64_le(xs[i])) =~= (u64_le(xs[0])
            + flat_u64s(d.take(i - 1))) + u64_le(xs[i]));
    }
}

pub proof fn lemma_encode_tables_snoc(ts: Seq<TableBatchModel>, i: int)
    requires
        0 <= i < ts.len(),
    ensures
        encode_tables(ts.take(i + 1)) == encode_tables(ts.take(i)) + encode_table(ts[i]),
    decreases i,
{
    if i == 0 {
        assert(ts.take(1) =~= seq![ts[0]]);
        assert(seq![ts[0]].drop_first() =~= Seq::<TableBatchModel>::empty());
        assert(ts.take(0) =~= Seq::<TableBatchModel>::empty());
        assert(encode_tables(Seq::<TableBatchModel>::empty()) =~= Seq::<u8>::empty());
        assert(encode_tables(ts.take(1)) =~= encode_table(ts[0]));
        assert(encode_tables(ts.take(0)) + encode_table(ts[0]) =~= encode_table(ts[0]));
    } else {
        let d = ts.drop_first();
        lemma_encode_tables_snoc(d, i - 1);
        assert(ts.take(i + 1).drop_first() =~= d.take(i));
        assert(ts.take(i).drop_first() =~= d.take(i - 1));
        assert(ts.take(i + 1)[0] == ts[0]);
        assert(ts.take(i)[0] == ts[0]);
        assert(d[i - 1] == ts[i]);
        assert(encode_table(ts[0]) + (encode_tables(d.take(i - 1)) + encode_table(ts[i])) =~= (
        encode_table(ts[0]) + encode_tables(d.take(i - 1))) + encode_table(ts[i]));
    }
}

// ---------------------------------------------------------------------------
// Executable encoder.
// ---------------------------------------------------------------------------

/// Appends the little-endian bytes of every value in `xs`.
#[verifier::loop_isolation(false)]
fn push_u64s(out: &mut Vec<u8>, xs: &Vec<u64>)
    ensures
        final(out)@ == old(out)@ + flat_u64s(xs@),
{
    let n = xs.len();
    let mut i: usize = 0;
    while i < n
        invariant
            n == xs@.len(),
            i <= n,
            out@ == old(out)@ + flat_u64s(xs@.take(i as int)),
        decreases n - i,
    {
        push_u64_le(out, xs[i]);
        proof {
            lemma_flat_u64s_snoc(xs@, i as int);
            assert(out@ =~= old(out)@ + flat_u64s(xs@.take(i + 1)));
        }
        i += 1;
    }
    proof {
        assert(xs@.take(n as int) =~= xs@);
    }
}

/// Whether every count in the operation fits the encoding's 32-bit length
/// fields.
#[verifier::loop_isolation(false)]
pub fn check_encodable(op: &SequencedOp) -> (r: bool)
    requires
        op.wf(),
    ensures
        r == op@.encodable(),
{
    let key_len = op.op.partition_key.as_bytes().len();
    if key_len > u32::MAX as usize {
        return false;
    }
    let n = op.op.tables.len();
    if n > u32::MAX as usize {
        return false;
    }
    let mut i: usize = 0;
    while i < n
        invariant
            op.wf(),
            n == op.op.tables@.len(),
            i <= n,
            forall|j: int| 0 <= j < i ==> op@.tables[j].times.len() <= u32::MAX,
        decreases n - i,
    {
        proof {
            assert(op.op.tables@[i as int].wf());
            assert(op@.tables[i as int] == op.op.tables@[i as int]@);
        }
        let rows = op.op.tables[i].batch.row_count();
        if rows > u32::MAX as usize {
            assert(op@.tables[i as int].times.len() > u32::MAX);
            return false;
        }
        assert(op@.tables[i as int].times.len() <= u32::MAX);
        i += 1;
    }
    true
}

/// Encodes the operation into its payload bytes.
#[verifier::loop_isolation(false)]
pub fn encode_payload(op: &SequencedOp) -> (r: Vec<u8>)
    requires
        op.wf(),
        op@.encodable(),
    ensures
        r@ == encode_op_payload(op@),
{
    let mut out: Vec<u8> = Vec::new();
    push_u64_le(&mut out, op.sequence_number.get());
    push_u64_le(&mut out, op.namespace_id.get());
    let key = op.op.partition_key.as_bytes();
    let key_len = key.len();
    push_u32_le(&mut out, key_len as u32);
    let mut i: usize = 0;
    proof {
        assert(key@.take(0) =~= Seq::<u8>::empty());
        assert(out@ =~= u64_le(op@.sequence_number) + u64_le(op@.namespace_id) + u32_le(
            op@.partition_key.len() as u32,
        ) + key@.take(0));
    }
    while i < key_len
        invariant
            key_len == key@.len(),
            i <= key_len,
            out@ == u64_le(op@.sequence_number) + u64_le(op@.namespace_id) + u32_le(
                op@.partition_key.len() as u32,
            ) + key@.take(i as int),
        decreases key_len - i,
    {
        out.push(key[i]);
        proof {
            assert(key@.take(i + 1) =~= key@.take(i as int).push(key@[i as int]));
            assert(out@ =~= u64_le(op@.sequence_number) + u64_le(op@.namespace_id) + u32_le(
                op@.partition_key.len() as u32,
            ) + key@.take(i + 1));
        }
        i += 1;
    }
    proof {
        assert(key@.take(key_len as int) =~= key@);
    }
    let n = op.op.tables.len();
    push_u32_le(&mut out, n as u32);
    let ghost prefix = u64_le(op@.sequence_number) + u64_le(op@.namespace_id) + u32_le(
        op@.partition_key.len() as u32,
    ) + op@.partition_key + u32_le(op@.tables.len() as u32);
    let mut t: usize = 0;
    proof {
        assert(op@.tables.len() == op.op.tables@.len());
        assert(op@.tables.take(0) =~= Seq::<TableBatchModel>::empty());
        assert(encode_tables(Seq::<TableBatchModel>::empty()) =~= Seq::<u8>::empty());
        assert(out@ =~= prefix + encode_tables(op@.tables.take(0)));
    }
    while t < n
        invariant
            op.wf(),
            op@.encodable(),
            n == op.op.tables@.len(),
            n == op@.tables.len(),
            t <= n,
            prefix == u64_le(op@.sequence_number) + u64_le(op@.namespace_id) + u32_le(
                op@.partition_key.len() as u32,
            ) + op@.partition_key + u32_le(op@.tables.len() as u32),
            out@ == prefix + encode_tables(op@.tables.take(t as int)),
        decreases n - t,
    {
        let tb = &op.op.tables[t];
        proof {
            assert(op.op.tables@[t as int].wf());
            assert(op@.tables[t as int] == op.op.tables@[t as int]@);
        }
        let ghost before = out@;
        push_u64_le(&mut out, tb.table_id.get());
        let rows = tb.batch.row_count();
        push_u32_le(&mut out, rows as u32);
        push_u64s(&mut out, tb.batch.times_vec());
        push_u64s(&mut out, tb.batch.values_vec());
        proof {
            let m = op@.tables[t as int];
            assert(out@ =~= before + (u64_le(m.table_id) + u32_le(m.times.len() as u32)
                + flat_u64s(m.times) + flat_u64s(m.values)));
            assert(out@ =~= before + encode_table(m));
            lemma_encode_tables_snoc(op@.tables, t as int);
            assert(out@ =~= prefix + encode_tables(op@.tables.take(t + 1)));
        }
        t += 1;
    }
    proof {
        assert(op@.tables.take(n as int) =~= op@.tables);
        assert(out@ =~= encode_op_payload(op@));
    }
    out
}

// ---------------------------------------------------------------------------
// Executable decoder, following the parser stage by stage.
// ---------------------------------------------------------------------------

/// Reads `n` little-endian values, mirroring `parse_u64s` from offset `pos`.
#[verifier::loop_isolation(false)]
fn read_u64s(bytes: &[u8], pos: usize, n: u32) -> (r: Option<(Vec<u64>, usize)>)
    requires
        pos <= bytes@.len(),
    ensures
        match r {
            Some(p) => {
                &&& parse_u64s(bytes@.skip(pos as int), n as nat) == Some(
                    (p.0@, bytes@.skip(p.1 as int)),
                )
                &&& p.0@.len() == n
                &&& pos <= p.1 <= bytes@.len()
            },
            None => parse_u64s(bytes@.skip(pos as int), n as nat) is None,
        },
{
    let ghost pos0 = pos as int;
    let mut v: Vec<u64> = Vec::new();
    let mut pos = pos;
    let mut i: u32 = 0;
    while i < n
        invariant
            i <= n,
            pos0 <= pos <= bytes@.len(),
            v@.len() == i,
            parse_u64s(bytes@.skip(pos0), n as nat) == (match parse_u64s(
                bytes@.skip(pos as int),
                (n - i) as nat,
            ) {
                Some((xs, rest)) => Some((v@ + xs, rest)),
                None => None,
            }),
        decreases n - i,
    {
        if bytes.len() - pos < 8 {
            proof {
                assert(bytes@.skip(pos as int).len() < 8);
                assert(parse_u64s(bytes@.skip(pos as int), (n - i) as nat) is None);
            }
            return None;
        }
        let x = read_u64_le(bytes, pos);
        proof {
            let s = bytes@.skip(pos as int);
            assert(s.subrange(0, 8) =~= bytes@.subrange(pos as int, pos + 8));
            lemma_le_value_bound(s.subrange(0, 8));
            assert(pow256(8) == 0x1_0000_0000_0000_0000) by {
                reveal_with_fuel(pow256, 9);
            }
            assert(s.skip(8) =~= bytes@.skip(pos + 8));
            assert(parse_u64p(s) == Some((x, bytes@.skip(pos + 8))));
            match parse_u64s(bytes@.skip(pos + 8), (n - i - 1) as nat) {
                Some((xs, rest)) => {
                    assert(v@.push(x) + xs =~= v@ + (seq![x] + xs));
                },
                None => {},
            }
        }
        v.push(x);
        pos = pos + 8;
        i += 1;
    }
    proof {
        assert(parse_u64s(bytes@.skip(pos as int), 0) == Some(
            (Seq::<u64>::empty(), bytes@.skip(pos as int)),
        ));
        assert(v@ + Seq::<u64>::empty() =~= v@);
    }
    Some((v, pos))
}

/// Reads one table share, mirroring `parse_table` from offset `pos`.
fn decode_table(bytes: &[u8], pos: usize) -> (r: Option<(TableBatch, usize)>)
    requires
        pos <= bytes@.len(),
    ensures
        match r {
            Some(p) => {
                &&& parse_table(bytes@.skip(pos as int)) == Some((p.0@, bytes@.skip(p.1 as int)))
                &&& p.0.wf()
                &&& pos <= p.1 <= bytes@.len()
            },
            None => parse_table(bytes@.skip(pos as int)) is None,
        },
{
    let ghost s = bytes@.skip(pos as int);
    if bytes.len() - pos < 8 {
        return None;
    }
    let table_id = read_u64_le(bytes, pos);
    proof {
        assert(s.subrange(0, 8) =~= bytes@.subrange(pos as int, pos + 8));
        lemma_le_value_bound(s.subrange(0, 8));
        assert(pow256(8) == 0x1_0000_0000_0000_0000) by {
            reveal_with_fuel(pow256, 9);
        }
        assert(s.skip(8) =~= bytes@.skip(pos + 8));
        assert(parse_u64p(s) == Some((table_id, bytes@.skip(pos + 8))));
    }
    let pos1 = pos + 8;
    if bytes.len() - pos1 < 4 {
        return None;
    }
    let row_count = read_u32_le(bytes, pos1);
    proof {
        let s1 = bytes@.skip(pos1 as int);
        assert(s1.subrange(0, 4) =~= bytes@.subrange(pos1 as int, pos1 + 4));
        lemma_le_value_bound(s1.subrange(0, 4));
        assert(pow256(4) == 0x1_0000_0000) by {
            reveal_with_fuel(pow256, 5);
        }
        assert(s1.skip(4) =~= bytes@.skip(pos1 + 4));
        assert(parse_u32p(s1) == Some((row_count, bytes@.skip(pos1 + 4))));
    }
    let pos2 = pos1 + 4;
    let (times, pos3) = match read_u64s(bytes, pos2, row_count) {
        Some(p) => p,
        None => {
            return None;
        },
    };
    let (values, pos4) = match read_u64s(bytes, pos3, row_count) {
        Some(p) => p,
        None => {
            return None;
        },
    };
    let batch = ColumnBatch::from_columns(times, values);
    let t = TableBatch::new(TableId::new(table_id), batch);
    Some((t, pos4))
}

/// Decodes a payload; yields exactly the operation the payload parses to.
#[verifier::rlimit(100)]
#[verifier::spinoff_prover]
#[verifier::loop_isolation(false)]
pub fn decode_payload(bytes: &[u8]) -> (r: Option<SequencedOp>)
    ensures
        match r {
            Some(op) => parse_op_payload(bytes@) == Some(op@) && op.wf(),
            None => parse_op_payload(bytes@) is None,
        },
{
    if bytes.len() < 8 {
        return None;
    }
    let sequence_number = read_u64_le(bytes, 0);
    proof {
        assert(bytes@.skip(0) =~= bytes@);
        assert(bytes@.subrange(0, 8) =~= bytes@.subrange(0, 8));
        lemma_le_value_bound(bytes@.subrange(0, 8));
        assert(pow256(8) == 0x1_0000_0000_0000_0000) by {
            reveal_with_fuel(pow256, 9);
        }
        assert(parse_u64p(bytes@) == Some((sequence_number, bytes@.skip(8))));
    }
    if bytes.len() - 8 < 8 {
        proof {
            assert(bytes@.skip(8).len() < 8);
        }
        return None;
    }
    let namespace_id = read_u64_le(bytes, 8);
    proof {
        let s1 = bytes@.skip(8);
        assert(s1.subrange(0, 8) =~= bytes@.subrange(8, 16));
        lemma_le_value_bound(s1.subrange(0, 8));
        assert(pow256(8) == 0x1_0000_0000_0000_0000) by {
            reveal_with_fuel(pow256, 9);
        }
        assert(s1.skip(8) =~= bytes@.skip(16));
        assert(parse_u64p(s1) == Some((namespace_id, bytes@.skip(16))));
    }
    if bytes.len() - 16 < 4 {
        proof {
            assert(bytes@.skip(16).len() < 4);
        }
        return None;
    }
    let key_len = read_u32_le(bytes, 16);
    proof {
        let s2 = bytes@.skip(16);
        assert(s2.subrange(0, 4) =~= bytes@.subrange(16, 20));
        lemma_le_value_bound(s2.subrange(0, 4));
        assert(pow256(4) == 0x1_0000_0000) by {
            reveal_with_fuel(pow256, 5);
        }
        assert(s2.skip(4) =~= bytes@.skip(20));
        assert(parse_u32p(s2) == Some((key_len, bytes@.skip(20))));
    }
    let ghost s3 = bytes@.skip(20);
    if bytes.len() - 20 < key_len as usize {
        proof {
            assert(s3.len() < key_len);
        }
        return None;
    }
    let mut key_bytes: Vec<u8> = Vec::new();
    let ghost kb_goal = s3.take(key_len as int);
    let key_end = 20 + key_len as usize;
    let mut i: usize = 20;
    while i < key_end
        invariant
            20 <= i <= key_end,
            key_end == 20 + key_len,
            key_end <= bytes@.len(),
            s3 == bytes@.skip(20),
            key_bytes@ == s3.take(i - 20),
        decreases key_end - i,
    {
        key_bytes.push(bytes[i]);
        proof {
            assert(s3[i - 20] == bytes@[i as int]);
            assert(s3.take(i - 20 + 1) =~= s3.take(i - 20).push(s3[i - 20]));
        }
        i += 1;
    }
    let ghost kb = key_bytes@;
    proof {
        assert(kb =~= kb_goal);
    }
    let partition_key = match PartitionKey::new(key_bytes) {
        Some(k) => k,
        None => {
            proof {
                assert(!(forall|j: int| 0 <= j < kb.len() ==> printable_byte(kb[j])));
                let j = choose|j: int| 0 <= j < kb.len() && !printable_byte(kb[j]);
                assert(kb[j] == s3[j]);
                assert(!(forall|jj: int| 0 <= jj < key_len ==> printable_byte(s3[jj])));
            }
            return None;
        },
    };
    proof {
        assert(partition_key@ == s3.take(key_len as int));
        assert forall|j: int| 0 <= j < key_len implies printable_byte(s3[j]) by {
            assert(partition_key@[j] == s3[j]);
            assert(printable_byte(partition_key@[j]));
        }
        assert(s3.skip(key_len as int) =~= bytes@.skip(20 + key_len as int));
    }
    let pos4 = key_end;
    let ghost s4 = bytes@.skip(20 + key_len as int);
    if bytes.len() - pos4 < 4 {
        proof {
            assert(s4.len() < 4);
        }
        return None;
    }
    let table_count = read_u32_le(bytes, pos4);
    proof {
        assert(s4.subrange(0, 4) =~= bytes@.subrange(pos4 as int, pos4 + 4));
        lemma_le_value_bound(s4.subrange(0, 4));
        assert(pow256(4) == 0x1_0000_0000) by {
            reveal_with_fuel(pow256, 5);
        }
        assert(s4.skip(4) =~= bytes@.skip(pos4 + 4));
        assert(parse_u32p(s4) == Some((table_count, bytes@.skip(pos4 + 4))));
    }
    let ghost pos5 = pos4 + 4int;
    let mut tables: Vec<TableBatch> = Vec::new();
    let mut pos = pos4 + 4;
    let mut t: u32 = 0;
    proof {
        match parse_tables(bytes@.skip(pos5), table_count as nat) {
            Some((ts, rest)) => {
                assert(batches_view(tables@) + ts =~= ts);
            },
            None => {},
        }
    }
    while t < table_count
        invariant
            t <= table_count,
            pos <= bytes@.len(),
            tables@.len() == t,
            forall|j: int| 0 <= j < tables@.len() ==> (#[trigger] tables@[j]).wf(),
            parse_tables(bytes@.skip(pos5), table_count as nat) == (match parse_tables(
                bytes@.skip(pos as int),
                (table_count - t) as nat,
            ) {
                Some((ts, rest)) => Some((batches_view(tables@) + ts, rest)),
                None => None,
            }),
        decreases table_count - t,
    {
        let (tb, new_pos) = match decode_table(bytes, pos) {
            Some(p) => p,
            None => {
                return None;
            },
        };
        proof {
            match parse_tables(bytes@.skip(new_pos as int), (table_count - t - 1) as nat) {
                Some((ts, rest)) => {
                    assert(batches_view(tables@.push(tb)) =~= batches_view(tables@).push(tb@));
                    assert(batches_view(tables@).push(tb@) + ts =~= batches_view(tables@) + (
                    seq![tb@] + ts));
                },
                None => {},
            }
        }
        tables.push(tb);
        pos = new_pos;
        t += 1;
    }
    if pos != bytes.len() {
        proof {
            assert(bytes@.skip(pos as int).len() != 0);
            assert(parse_tables(bytes@.skip(pos as int), 0) == Some(
                (Seq::<TableBatchModel>::empty(), bytes@.skip(pos as int)),
            ));
        }
        return None;
    }
    proof {
        assert(bytes@.skip(pos as int).len() == 0);
        assert(batches_view(tables@) + Seq::<TableBatchModel>::empty() =~= batches_view(tables@));
    }
    let op = SequencedOp::new(
        SequenceNumber::new(sequence_number),
        NamespaceId::new(namespace_id),
        Write { partition_key, tables },
    );
    proof {
        assert(op@.partition_key =~= s3.take(key_len as int));
    }
    Some(op)
}

} // verus!
