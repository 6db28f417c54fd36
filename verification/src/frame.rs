//! Segment-file framing: a fixed header, then length-prefixed, checksummed
//! records.  A torn or corrupt record ends a segment's record stream cleanly,
//! as a crash at the end of the log would.
//!
//! Layout: header `IOXWAL\0\0 | u32 version`, then per record
//! `u32 length | u32 crc | payload[length]`, checksum and length little
//! endian, the checksum taken over the payload alone.

use vstd::prelude::*;
use vstd::slice::slice_subrange;

use crate::bytes::{le_value, lemma_le_bytes_len, lemma_le_round_trip, lemma_le_value_bound,
    pow256, push_u32_le, read_u32_le, u32_le};
use crate::codec::{decode_payload, encode_op_payload, parse_op_payload};
use crate::op::{ops_view, OpModel, SequencedOp};

verus! {

/// Name for what `crc32c::crc32c` returns on a byte string.
pub uninterp spec fn crc32c_of(data: Seq<u8>) -> u32;

/// Relies on `crc32c::crc32c`: the CRC-32-Castagnoli checksum of the bytes,
/// a function of the bytes alone.
#[verifier::external_body]
fn crc32c_sum(data: &[u8]) -> (r: u32)
    ensures
        r == crc32c_of(data@),
{
    crc32c::crc32c(data)
}

/// The format version written into every segment header.
pub const SEGMENT_VERSION: u32 = 1;

/// Bytes every segment file starts with.
pub open spec fn segment_header() -> Seq<u8> {
    seq![0x49u8, 0x4fu8, 0x58u8, 0x57u8, 0x41u8, 0x4cu8, 0u8, 0u8] + u32_le(SEGMENT_VERSION)
}

/// Length of the segment header in bytes.
pub const SEGMENT_HEADER_LEN: usize = 12;

pub proof fn lemma_segment_header_len()
    ensures
        segment_header().len() == SEGMENT_HEADER_LEN,
{
    lemma_le_bytes_len(SEGMENT_VERSION as nat, 4);
}

/// Appends the segment header.
pub fn push_segment_header(out: &mut Vec<u8>)
    ensures
        final(out)@ == old(out)@ + segment_header(),
{
    out.push(0x49);
    out.push(0x4f);
    out.push(0x58);
    out.push(0x57);
    out.push(0x41);
    out.push(0x4c);
    out.push(0);
    out.push(0);
    push_u32_le(out, SEGMENT_VERSION);
    proof {
        assert(final(out)@ =~= old(out)@ + segment_header());
    }
}

/// Whether `bytes` opens with a valid segment header.
pub open spec fn has_valid_header(bytes: Seq<u8>) -> bool {
    bytes.len() >= SEGMENT_HEADER_LEN && bytes.subrange(0, SEGMENT_HEADER_LEN as int)
        == segment_header()
}

/// Checks the header of a segment file.
pub fn check_header(bytes: &[u8]) -> (r: bool)
    ensures
        r == has_valid_header(bytes@),
{
    proof {
        lemma_segment_header_len();
    }
    if bytes.len() < SEGMENT_HEADER_LEN {
        return false;
    }
    let mut expect: Vec<u8> = Vec::new();
    push_segment_header(&mut expect);
    proof {
        assert(expect@ =~= segment_header());
    }
    let mut i: usize = 0;
    while i < SEGMENT_HEADER_LEN
        invariant
            i <= SEGMENT_HEADER_LEN,
            bytes@.len() >= SEGMENT_HEADER_LEN,
            expect@ == segment_header(),
            expect@.len() == SEGMENT_HEADER_LEN,
            forall|j: int| 0 <= j < i ==> bytes@[j] == segment_header()[j],
        decreases SEGMENT_HEADER_LEN - i,
    {
        if bytes[i] != expect[i] {
            proof {
                let j = i as int;
                assert(bytes@.subrange(0, SEGMENT_HEADER_LEN as int)[j] != segment_header()[j]);
            }
            return false;
        }
        i += 1;
    }
    proof {
        assert(bytes@.subrange(0, SEGMENT_HEADER_LEN as int) =~= segment_header());
    }
    true
}

/// One framed record: length, checksum, payload.
pub open spec fn frame(payload: Seq<u8>) -> Seq<u8> {
    u32_le(payload.len() as u32) + u32_le(crc32c_of(payload)) + payload
}

/// Whether an operation can be framed: well formed, counts in range, and a
/// payload short enough for the length field.
pub open spec fn frameable(m: OpModel) -> bool {
    m.wf() && m.encodable() && encode_op_payload(m).len() <= u32::MAX
}

/// The framed records of the operations, concatenated: a segment's body.
pub open spec fn op_frames(ops: Seq<OpModel>) -> Seq<u8>
    decreases ops.len(),
{
    if ops.len() == 0 {
        Seq::empty()
    } else {
        frame(encode_op_payload(ops[0])) + op_frames(ops.drop_first())
    }
}

/// The records a segment body holds.  A short, torn, checksum-mismatched or
/// undecodable record ends the stream.
pub open spec fn parse_frames(s: Seq<u8>) -> Seq<OpModel>
    decreases s.len(),
{
    if s.len() < 8 {
        Seq::empty()
    } else {
        let len = le_value(s.subrange(0, 4));
        let crc = le_value(s.subrange(4, 8)) as u32;
        if s.len() < 8 + len as int {
            Seq::empty()
        } else {
            let payload = s.subrange(8, 8 + len as int);
            if crc != crc32c_of(payload) {
                Seq::empty()
            } else {
                match parse_op_payload(payload) {
                    None => Seq::empty(),
                    Some(m) => seq![m] + parse_frames(s.skip(8 + len as int)),
                }
            }
        }
    }
}

/// Round trip: a segment body made of framed encodings parses back to
/// exactly the operations, in order.
#[verifier::rlimit(100)]
#[verifier::spinoff_prover]
pub proof fn lemma_parse_frames_round_trip(ops: Seq<OpModel>)
    requires
        forall|i: int| 0 <= i < ops.len() ==> frameable(#[trigger] ops[i]),
    ensures
        parse_frames(op_frames(ops)) == ops,
    decreases ops.len(),
{
    if ops.len() == 0 {
        assert(parse_frames(op_frames(ops)) =~= ops);
    } else {
        let m = ops[0];
        let payload = encode_op_payload(m);
        let rest = op_frames(ops.drop_first());
        let s = op_frames(ops);
        lemma_le_bytes_len(payload.len() as u32 as nat, 4);
        lemma_le_bytes_len(crc32c_of(payload) as nat, 4);
        assert(s =~= u32_le(payload.len() as u32) + u32_le(crc32c_of(payload)) + payload + rest);
        assert(s.subrange(0, 4) =~= u32_le(payload.len() as u32));
        assert(s.subrange(4, 8) =~= u32_le(crc32c_of(payload)));
        assert(pow256(4) == 0x1_0000_0000) by {
            reveal_with_fuel(pow256, 5);
        }
        lemma_le_round_trip(payload.len() as u32 as nat, 4);
        lemma_le_round_trip(crc32c_of(payload) as nat, 4);
        let len = le_value(s.subrange(0, 4));
        assert(len == payload.len());
        assert(s.len() == 8 + payload.len() + rest.len());
        assert(s.subrange(8, 8 + len as int) =~= payload);
        crate::codec::lemma_parse_op_encode(m);
        assert(s.skip(8 + len as int) =~= rest);
        lemma_parse_frames_round_trip(ops.drop_first());
        assert(seq![m] + ops.drop_first() =~= ops);
    }
}

/// Appending one operation extends a segment body by one framed record.
pub proof fn lemma_op_frames_snoc(ops: Seq<OpModel>, x: OpModel)
    ensures
        op_frames(ops.push(x)) == op_frames(ops) + frame(encode_op_payload(x)),
    decreases ops.len(),
{
    if ops.len() == 0 {
        assert(ops.push(x)[0] == x);
        assert(ops.push(x).drop_first() =~= Seq::<OpModel>::empty());
        assert(op_frames(Seq::<OpModel>::empty()) =~= Seq::<u8>::empty());
        assert(op_frames(ops.push(x)) =~= frame(encode_op_payload(x)));
        assert(op_frames(ops) + frame(encode_op_payload(x)) =~= frame(encode_op_payload(x)));
    } else {
        assert(ops.push(x).drop_first() =~= ops.drop_first().push(x));
        assert(ops.push(x)[0] == ops[0]);
        lemma_op_frames_snoc(ops.drop_first(), x);
        assert(frame(encode_op_payload(ops[0])) + (op_frames(ops.drop_first()) + frame(
            encode_op_payload(x),
        )) =~= (frame(encode_op_payload(ops[0])) + op_frames(ops.drop_first())) + frame(
            encode_op_payload(x),
        ));
    }
}

/// A segment image built as header plus framed records parses back to
/// exactly those records' operations.
pub proof fn lemma_segment_parses_back(bytes: Seq<u8>, ops: Seq<OpModel>)
    requires
        bytes == segment_header() + op_frames(ops),
        forall|i: int| 0 <= i < ops.len() ==> frameable(#[trigger] ops[i]),
    ensures
        parse_frames(bytes.skip(SEGMENT_HEADER_LEN as int)) == ops,
        has_valid_header(bytes),
{
    lemma_segment_header_len();
    assert(bytes.skip(SEGMENT_HEADER_LEN as int) =~= op_frames(ops));
    lemma_parse_frames_round_trip(ops);
    assert(bytes.subrange(0, SEGMENT_HEADER_LEN as int) =~= segment_header());
}

/// Appends one framed record holding `payload`.
pub fn append_frame(out: &mut Vec<u8>, payload: &Vec<u8>)
    requires
        payload@.len() <= u32::MAX,
    ensures
        final(out)@ == old(out)@ + frame(payload@),
        final(out)@.len() == old(out)@.len() + 8 + payload@.len(),
{
    let len = payload.len();
    push_u32_le(out, len as u32);
    let crc = crc32c_sum(payload.as_slice());
    push_u32_le(out, crc);
    let n = payload.len();
    let mut i: usize = 0;
    proof {
        lemma_le_bytes_len(payload@.len() as u32 as nat, 4);
        lemma_le_bytes_len(crc32c_of(payload@) as nat, 4);
        assert(payload@.take(0) =~= Seq::<u8>::empty());
        assert(out@ =~= old(out)@ + u32_le(payload@.len() as u32) + u32_le(crc32c_of(payload@))
            + payload@.take(0));
    }
    while i < n
        invariant
            n == payload@.len(),
            i <= n,
            out@ == old(out)@ + u32_le(payload@.len() as u32) + u32_le(crc32c_of(payload@))
                + payload@.take(i as int),
        decreases n - i,
    {
        out.push(payload[i]);
        proof {
            assert(payload@.take(i + 1) =~= payload@.take(i as int).push(payload@[i as int]));
            assert(out@ =~= old(out)@ + u32_le(payload@.len() as u32) + u32_le(
                crc32c_of(payload@),
            ) + payload@.take(i + 1));
        }
        i += 1;
    }
    proof {
        assert(payload@.take(n as int) =~= payload@);
        assert(out@ =~= old(out)@ + frame(payload@));
    }
}

/// Decodes every record of a segment body from `start` on, stopping cleanly
/// at a torn, corrupt or undecodable record.
#[verifier::rlimit(60)]
#[verifier::loop_isolation(false)]
pub fn decode_frames(bytes: &[u8], start: usize) -> (r: Vec<SequencedOp>)
    requires
        start <= bytes@.len(),
    ensures
        ops_view(r@) == parse_frames(bytes@.skip(start as int)),
        forall|i: int| 0 <= i < r@.len() ==> (#[trigger] r@[i]).wf(),
{
    let mut acc: Vec<SequencedOp> = Vec::new();
    let mut pos = start;
    let mut done = false;
    proof {
        assert(ops_view(acc@) + parse_frames(bytes@.skip(start as int)) =~= parse_frames(
            bytes@.skip(start as int),
        ));
    }
    while !done
        invariant
            start <= pos <= bytes@.len(),
            forall|i: int| 0 <= i < acc@.len() ==> (#[trigger] acc@[i]).wf(),
            ops_view(acc@) + parse_frames(bytes@.skip(pos as int)) == parse_frames(
                bytes@.skip(start as int),
            ),
            done ==> parse_frames(bytes@.skip(pos as int)) == Seq::<OpModel>::empty(),
        decreases bytes@.len() - pos, (if done { 0int } else { 1int }),
    {
        let ghost s = bytes@.skip(pos as int);
        if bytes.len() - pos < 8 {
            proof {
                assert(parse_frames(s) =~= Seq::<OpModel>::empty());
            }
            done = true;
        } else {
            let len32 = read_u32_le(bytes, pos);
            proof {
                assert(s.subrange(0, 4) =~= bytes@.subrange(pos as int, pos + 4));
                assert(s.subrange(4, 8) =~= bytes@.subrange(pos + 4, pos + 8));
            }
            let len = len32 as usize;
            if bytes.len() - pos - 8 < len {
                proof {
                    assert(s.len() < 8 + le_value(s.subrange(0, 4)));
                    assert(parse_frames(s) =~= Seq::<OpModel>::empty());
                }
                done = true;
            } else {
                let payload = slice_subrange(bytes, pos + 8, pos + 8 + len);
                proof {
                    assert(payload@ =~= s.subrange(8, 8 + le_value(s.subrange(0, 4)) as int));
                }
                let crc_stored = read_u32_le(bytes, pos + 4);
                let crc_actual = crc32c_sum(payload);
                if crc_stored != crc_actual {
                    proof {
                        assert(le_value(s.subrange(4, 8)) as u32 != crc32c_of(
                            s.subrange(8, 8 + le_value(s.subrange(0, 4)) as int),
                        ));
                        assert(parse_frames(s) =~= Seq::<OpModel>::empty());
                    }
                    done = true;
                } else {
                    match decode_payload(payload) {
                        None => {
                            proof {
                                assert(parse_frames(s) =~= Seq::<OpModel>::empty());
                            }
                            done = true;
                        },
                        Some(op) => {
                            proof {
                                let len_spec = le_value(s.subrange(0, 4));
                                assert(parse_frames(s) == seq![op@] + parse_frames(
                                    s.skip(8 + len_spec as int),
                                ));
                                assert(s.skip(8 + len_spec as int) =~= bytes@.skip(pos + 8 + len));
                                assert(ops_view(acc@.push(op)) =~= ops_view(acc@).push(op@));
                                assert(ops_view(acc@).push(op@) + parse_frames(
                                    bytes@.skip(pos + 8 + len),
                                ) =~= ops_view(acc@) + (seq![op@] + parse_frames(
                                    bytes@.skip(pos + 8 + len),
                                )));
                            }
                            acc.push(op);
                            pos = pos + 8 + len;
                        },
                    }
                }
            }
        }
    }
    proof {
        assert(ops_view(acc@) + Seq::<OpModel>::empty() =~= ops_view(acc@));
    }
    acc
}

} // verus!
