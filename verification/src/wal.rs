//! The write-ahead log: a sequence of segment files, exactly one of them
//! open for appends, the rest closed and immutable until deleted.
//!
//! The log owns the byte image of every live segment.  A caller that mirrors
//! segments to storage reads the images through the accessors here; on a
//! restart it hands the surviving files back to [`Wal::recover`].

use vstd::prelude::*;

use crate::codec::{check_encodable, encode_op_payload, encode_payload};
use crate::frame::{
    append_frame, check_header, decode_frames, frame, frameable, has_valid_header,
    lemma_op_frames_snoc, lemma_parse_frames_round_trip, lemma_segment_header_len,
    lemma_segment_parses_back, op_frames, parse_frames, push_segment_header, segment_header,
    SEGMENT_HEADER_LEN,
};
use crate::ids::{SegmentId, SequenceNumber};
use crate::op::{ops_view, OpModel, SequencedOp};

verus! {

/// The greatest sequence number among the operations, if any.
pub open spec fn max_seq_of(ops: Seq<OpModel>) -> Option<u64>
    decreases ops.len(),
{
    if ops.len() == 0 {
        None
    } else {
        match max_seq_of(ops.drop_last()) {
            None => Some(ops.last().sequence_number),
            Some(m) => if ops.last().sequence_number > m {
                Some(ops.last().sequence_number)
            } else {
                Some(m)
            },
        }
    }
}

/// Ghost description of one segment: its id and its byte image.
#[verifier::ext_equal]
pub ghost struct SegmentView {
    pub id: u64,
    pub bytes: Seq<u8>,
}

impl SegmentView {
    /// The operations the segment's records hold.
    pub open spec fn ops(self) -> Seq<OpModel> {
        parse_frames(self.bytes.skip(SEGMENT_HEADER_LEN as int))
    }

    /// The segment's size in bytes.
    pub open spec fn size(self) -> nat {
        self.bytes.len()
    }
}

/// What an append reports: the open segment's size after the write, and the
/// size of the framed record just written.
#[derive(Clone, Copy, Debug, PartialEq, Eq, Structural)]
pub struct WriteSummary {
    pub total_bytes: usize,
    pub bytes_written: usize,
}

/// Descriptor of a segment that rotation just closed, or of a closed segment
/// on file: id, byte size, greatest sequence number seen.
#[derive(Clone, Copy, Debug, PartialEq, Eq, Structural)]
pub struct ClosedSegment {
    pub id: SegmentId,
    pub size: u64,
    pub max_sequence: Option<u64>,
}

impl ClosedSegment {
    pub fn id(&self) -> (r: SegmentId)
        ensures
            r == self.id,
    {
        self.id
    }

    pub fn size(&self) -> (r: u64)
        ensures
            r == self.size,
    {
        self.size
    }

    pub fn max_sequence(&self) -> (r: Option<SequenceNumber>)
        ensures
            match r {
                Some(s) => self.max_sequence == Some(s.0),
                None => self.max_sequence is None,
            },
    {
        match self.max_sequence {
            Some(v) => Some(SequenceNumber(v)),
            None => None,
        }
    }
}

/// Why the log refuses to open over a set of recovered files.
#[derive(Clone, Copy, Debug, PartialEq, Eq, Structural)]
pub enum WalInitError {
    /// A recovered file does not start with the segment magic and version.
    InvalidHeader,
    /// Two recovered files carry the same segment id.
    DuplicateSegmentId,
}

/// Why an append failed.  Failures of the storage the caller mirrors the
/// log to are the caller's to report.
#[derive(Clone, Copy, Debug, PartialEq, Eq, Structural)]
pub enum WalAppendError {
    /// A count in the operation overflows the encoding's length fields.
    Encode,
}

/// Why a deletion was refused.
#[derive(Clone, Copy, Debug, PartialEq, Eq, Structural)]
pub enum WalDeleteError {
    /// The id names the open segment, which cannot be deleted.
    OpenSegment,
    /// No closed segment has this id: never existed or already deleted.
    NotFound,
}

/// Why no reader could be produced.
#[derive(Clone, Copy, Debug, PartialEq, Eq, Structural)]
pub enum WalReadError {
    /// No closed segment has this id.
    NotFound,
}

struct OpenSegment {
    id: u64,
    bytes: Vec<u8>,
    max_seq: Option<u64>,
    ops: Ghost<Seq<OpModel>>,
}

impl OpenSegment {
    spec fn wf(&self) -> bool {
        &&& self.bytes@ == segment_header() + op_frames(self.ops@)
        &&& forall|i: int| 0 <= i < self.ops@.len() ==> frameable(#[trigger] self.ops@[i])
        &&& self.max_seq == max_seq_of(self.ops@)
    }

    fn fresh(id: u64) -> (r: Self)
        ensures
            r.wf(),
            r.id == id,
            r.ops@ == Seq::<OpModel>::empty(),
            r.bytes@ == segment_header(),
    {
        let mut bytes: Vec<u8> = Vec::new();
        push_segment_header(&mut bytes);
        proof {
            assert(bytes@ =~= segment_header() + op_frames(Seq::<OpModel>::empty()));
        }
        OpenSegment { id, bytes, max_seq: None, ops: Ghost(Seq::empty()) }
    }
}

struct ClosedSegmentState {
    id: u64,
    bytes: Vec<u8>,
    max_seq: Option<u64>,
}

impl ClosedSegmentState {
    spec fn wf(&self) -> bool {
        &&& has_valid_header(self.bytes@)
        &&& self.max_seq == max_seq_of(self.view().ops())
    }

    spec fn view(&self) -> SegmentView {
        SegmentView { id: self.id, bytes: self.bytes@ }
    }
}

/// Whether an entry of the recovered input shows up as a closed segment.
pub open spec fn recovered_entry(closed: Seq<SegmentView>, id: u64, bytes: Seq<u8>) -> bool {
    exists|j: int| 0 <= j < closed.len() && closed[j].id == id && closed[j].bytes == bytes
}


/// Inserting a recovered file keeps the two-way correspondence between the
/// processed entries and the closed segments.
proof fn lemma_insert_correspondence(
    oldv: Seq<SegmentView>,
    newv: Seq<SegmentView>,
    entries: Seq<(u64, Vec<u8>)>,
    idx: int,
    pos: int,
)
    requires
        0 <= pos <= oldv.len(),
        0 <= idx < entries.len(),
        newv == oldv.insert(pos, SegmentView { id: entries[idx].0, bytes: entries[idx].1@ }),
        forall|i: int| 0 <= i < idx ==> recovered_entry(
            oldv,
            (#[trigger] entries[i]).0,
            entries[i].1@,
        ),
        forall|j: int| 0 <= j < oldv.len() ==> exists|i: int|
            0 <= i < idx && entries[i].0 == (#[trigger] oldv[j]).id && entries[i].1@
                == oldv[j].bytes,
    ensures
        forall|i: int| 0 <= i < idx + 1 ==> recovered_entry(
            newv,
            (#[trigger] entries[i]).0,
            entries[i].1@,
        ),
        forall|j: int| 0 <= j < newv.len() ==> exists|i: int|
            0 <= i < idx + 1 && entries[i].0 == (#[trigger] newv[j]).id && entries[i].1@
                == newv[j].bytes,
{
    assert(newv.len() == oldv.len() + 1);
    assert forall|j: int| 0 <= j < newv.len() implies (if j < pos {
        newv[j] == oldv[j]
    } else if j == pos {
        newv[j] == (SegmentView { id: entries[idx].0, bytes: entries[idx].1@ })
    } else {
        newv[j] == oldv[j - 1]
    }) by {
    }
    assert forall|i: int| 0 <= i < idx + 1 implies recovered_entry(
        newv,
        (#[trigger] entries[i]).0,
        entries[i].1@,
    ) by {
        if i < idx {
            let oj = choose|oj: int|
                0 <= oj < oldv.len() && oldv[oj].id == entries[i].0 && oldv[oj].bytes
                    == entries[i].1@;
            if oj < pos {
                assert(newv[oj].id == entries[i].0 && newv[oj].bytes == entries[i].1@);
            } else {
                assert(newv[oj + 1].id == entries[i].0 && newv[oj + 1].bytes == entries[i].1@);
            }
        } else {
            assert(newv[pos].id == entries[i].0 && newv[pos].bytes == entries[i].1@);
        }
    }
    assert forall|j: int| 0 <= j < newv.len() implies exists|i: int|
        0 <= i < idx + 1 && entries[i].0 == (#[trigger] newv[j]).id && entries[i].1@
            == newv[j].bytes by {
        if j < pos {
            let wi = choose|wi: int|
                0 <= wi < idx && entries[wi].0 == oldv[j].id && entries[wi].1@ == oldv[j].bytes;
            assert(entries[wi].0 == newv[j].id && entries[wi].1@ == newv[j].bytes);
        } else if j == pos {
            assert(entries[idx].0 == newv[j].id && entries[idx].1@ == newv[j].bytes);
        } else {
            let wi = choose|wi: int|
                0 <= wi < idx && entries[wi].0 == oldv[j - 1].id && entries[wi].1@ == oldv[j
                    - 1].bytes;
            assert(entries[wi].0 == newv[j].id && entries[wi].1@ == newv[j].bytes);
        }
    }
}

/// The segmented write-ahead log.
pub struct Wal {
    closed: Vec<ClosedSegmentState>,
    open: OpenSegment,
}

impl Wal {
    /// The closed segments, oldest first.
    pub closed spec fn closed_view(&self) -> Seq<SegmentView> {
        Seq::new(self.closed@.len(), |i: int| self.closed@[i].view())
    }

    /// The id of the open segment.
    pub closed spec fn open_id(&self) -> u64 {
        self.open.id
    }

    /// The operations appended to the open segment, in append order.
    pub closed spec fn open_ops(&self) -> Seq<OpModel> {
        self.open.ops@
    }

    /// The byte image of the open segment.
    pub closed spec fn open_bytes_view(&self) -> Seq<u8> {
        self.open.bytes@
    }

    pub closed spec fn wf(&self) -> bool {
        &&& self.open.wf()
        &&& forall|i: int| 0 <= i < self.closed@.len() ==> (#[trigger] self.closed@[i]).wf()
        &&& forall|i: int, j: int|
            0 <= i < j < self.closed@.len() ==> self.closed@[i].id < self.closed@[j].id
        &&& forall|i: int| 0 <= i < self.closed@.len() ==> (#[trigger] self.closed@[i]).id
            < self.open.id
    }

    /// Closed segments stand in creation order: their ids increase
    /// strictly along the list.
    pub proof fn lemma_closed_ids_sorted(&self)
        requires
            self.wf(),
        ensures
            forall|i: int, j: int| 0 <= i < j < self.closed_view().len()
                ==> (#[trigger] self.closed_view()[i]).id < (
                #[trigger] self.closed_view()[j]).id,
            forall|i: int| 0 <= i < self.closed_view().len()
                ==> (#[trigger] self.closed_view()[i]).id < self.open_id(),
    {
    }

    /// The open segment's byte image equals the header followed by its
    /// operations' framed records, so reading it back yields exactly the
    /// appended operations in order.
    pub proof fn lemma_open_parses_back(&self)
        requires
            self.wf(),
        ensures
            parse_frames(self.open_bytes_view().skip(SEGMENT_HEADER_LEN as int))
                == self.open_ops(),
    {
        lemma_segment_header_len();
        assert(self.open_bytes_view().skip(SEGMENT_HEADER_LEN as int) =~= op_frames(
            self.open_ops(),
        ));
        lemma_parse_frames_round_trip(self.open_ops());
    }

    /// Opens a log in a fresh directory: no closed segments, an empty open
    /// segment with id 0.
    pub fn new() -> (r: Self)
        ensures
            r.wf(),
            r.closed_view() == Seq::<SegmentView>::empty(),
            r.open_id() == 0,
            r.open_ops() == Seq::<OpModel>::empty(),
    {
        let r = Wal { closed: Vec::new(), open: OpenSegment::fresh(0) };
        proof {
            assert(r.closed_view() =~= Seq::<SegmentView>::empty());
        }
        r
    }

    /// Opens a log over the segment files found in an existing directory.
    /// Every pre-existing file becomes a closed segment; a new open segment
    /// is created whose id is one above the greatest recovered id.
    pub fn recover(existing: Vec<(u64, Vec<u8>)>) -> (r: Result<Self, WalInitError>)
        requires
            forall|i: int| 0 <= i < existing@.len() ==> (#[trigger] existing@[i]).0 < u64::MAX,
        ensures
            match r {
                Ok(w) => {
                    &&& w.wf()
                    &&& w.closed_view().len() == existing@.len()
                    &&& forall|i: int| 0 <= i < existing@.len() ==> recovered_entry(
                        w.closed_view(),
                        (#[trigger] existing@[i]).0,
                        existing@[i].1@,
                    )
                    &&& forall|j: int| 0 <= j < w.closed_view().len() ==> exists|i: int|
                        0 <= i < existing@.len() && existing@[i].0 == (
                        #[trigger] w.closed_view()[j]).id && existing@[i].1@
                            == w.closed_view()[j].bytes
                    &&& w.open_ops() == Seq::<OpModel>::empty()
                    &&& (existing@.len() == 0 ==> w.open_id() == 0)
                },
                Err(WalInitError::InvalidHeader) => exists|i: int|
                    0 <= i < existing@.len() && !has_valid_header((#[trigger] existing@[i]).1@),
                Err(WalInitError::DuplicateSegmentId) => exists|i: int, j: int|
                    0 <= i < j < existing@.len() && (#[trigger] existing@[i]).0 == (
                    #[trigger] existing@[j]).0,
            },
    {
        let n = existing.len();
        let mut closed: Vec<ClosedSegmentState> = Vec::new();
        let mut idx: usize = 0;
        while idx < n
            invariant
                n == existing@.len(),
                forall|i: int| 0 <= i < existing@.len() ==> (#[trigger] existing@[i]).0
                    < u64::MAX,
                closed@.len() == idx <= n,
                forall|i: int| 0 <= i < closed@.len() ==> (#[trigger] closed@[i]).wf(),
                forall|i: int, j: int| 0 <= i < j < closed@.len() ==> closed@[i].id
                    < closed@[j].id,
                forall|i: int| 0 <= i < idx ==> recovered_entry(
                    Seq::new(closed@.len(), |k: int| closed@[k].view()),
                    (#[trigger] existing@[i]).0,
                    existing@[i].1@,
                ),
                forall|j: int| 0 <= j < closed@.len() ==> exists|i: int|
                    0 <= i < idx && existing@[i].0 == (#[trigger] closed@[j]).id
                        && existing@[i].1@ == closed@[j].bytes@,
            decreases n - idx,
        {
            let id = existing[idx].0;
            if !check_header(existing[idx].1.as_slice()) {
                return Err(WalInitError::InvalidHeader);
            }
            let recs = decode_frames(existing[idx].1.as_slice(), SEGMENT_HEADER_LEN);
            let max_seq = max_seq_of_ops(&recs);
            // Find the insertion point that keeps ids strictly increasing.
            let mut pos: usize = closed.len();
            while pos > 0 && closed[pos - 1].id > id
                invariant
                    pos <= closed@.len(),
                    forall|k: int| pos <= k < closed@.len() ==> (#[trigger] closed@[k]).id > id,
                decreases pos,
            {
                pos -= 1;
            }
            if pos > 0 && closed[pos - 1].id == id {
                proof {
                    let cj = pos - 1;
                    let wi = choose|i: int|
                        0 <= i < idx && existing@[i].0 == closed@[cj].id && existing@[i].1@
                            == closed@[cj].bytes@;
                    assert(existing@[wi].0 == existing@[idx as int].0);
                }
                return Err(WalInitError::DuplicateSegmentId);
            }
            // All ids left of the insertion point are below `id`.
            proof {
                assert forall|k: int| 0 <= k < pos implies (#[trigger] closed@[k]).id < id by {
                    if pos > 0 {
                        if k < pos - 1 {
                            assert(closed@[k].id < closed@[pos - 1].id);
                        }
                    }
                }
            }
            let ghost oldc = closed@;
            let ghost oldv = Seq::new(oldc.len(), |k: int| oldc[k].view());
            let seg = ClosedSegmentState {
                id,
                bytes: clone_bytes(&existing[idx].1),
                max_seq,
            };
            proof {
                let sv = SegmentView { id: seg.id, bytes: seg.bytes@ };
                assert(sv.ops() == ops_view(recs@));
            }
            closed.insert(pos, seg);
            proof {
                let newv = Seq::new(closed@.len(), |k: int| closed@[k].view());
                assert(newv =~= oldv.insert(
                    pos as int,
                    SegmentView { id: existing@[idx as int].0, bytes: existing@[idx as int].1@ },
                ));
                lemma_insert_correspondence(oldv, newv, existing@, idx as int, pos as int);
            }
            idx += 1;
        }
        // The next segment id is one above the greatest recovered id, which
        // sits at the end of the sorted list.
        let next_id: u64 = if closed.len() == 0 {
            0
        } else {
            proof {
                let j = closed@.len() - 1;
                let wi = choose|wi: int|
                    0 <= wi < existing@.len() && existing@[wi].0 == closed@[j].id && existing@[
                    wi].1@ == closed@[j].bytes@;
                assert(existing@[wi].0 < u64::MAX);
            }
            closed[closed.len() - 1].id + 1
        };
        let w = Wal { closed, open: OpenSegment::fresh(next_id) };
        proof {
            assert forall|i: int| 0 <= i < w.closed@.len() implies (#[trigger] w.closed@[i]).id
                < w.open.id by {
                if w.closed@.len() > 0 && i < w.closed@.len() - 1 {
                    assert(w.closed@[i].id < w.closed@[w.closed@.len() - 1].id);
                }
            }
            assert(w.closed_view() =~= Seq::new(w.closed@.len(), |k: int| w.closed@[k].view()));
        }
        Ok(w)
    }
}

impl Wal {
    /// The id the open segment will be read back under.
    pub fn open_segment_id(&self) -> (r: SegmentId)
        ensures
            r.0 == self.open_id(),
    {
        SegmentId(self.open.id)
    }

    /// The byte image of the open segment, for mirroring to storage.
    pub fn open_bytes(&self) -> (r: &Vec<u8>)
        ensures
            r@ == self.open_bytes_view(),
    {
        &self.open.bytes
    }

    /// Appends one operation as a framed record to the open segment.  On
    /// success the operation is in the log image, after everything appended
    /// before it; mirroring the image to storage is the caller's step.
    /// Fails exactly when a count in the operation overflows the record
    /// encoding, and leaves the log unchanged then.
    pub fn append(&mut self, op: &SequencedOp) -> (r: Result<WriteSummary, WalAppendError>)
        requires
            old(self).wf(),
            op.wf(),
        ensures
            final(self).wf(),
            final(self).closed_view() == old(self).closed_view(),
            final(self).open_id() == old(self).open_id(),
            match r {
                Ok(s) => {
                    &&& frameable(op@)
                    &&& final(self).open_ops() == old(self).open_ops().push(op@)
                    &&& final(self).open_bytes_view() == old(self).open_bytes_view() + frame(
                        encode_op_payload(op@),
                    )
                    &&& s.bytes_written == 8 + encode_op_payload(op@).len()
                    &&& s.total_bytes == final(self).open_bytes_view().len()
                },
                Err(WalAppendError::Encode) => !frameable(op@) && *final(self) == *old(self),
            },
    {
        proof {
            crate::op::lemma_op_view_wf(*op);
        }
        if !check_encodable(op) {
            return Err(WalAppendError::Encode);
        }
        let payload = encode_payload(op);
        if payload.len() > u32::MAX as usize {
            return Err(WalAppendError::Encode);
        }
        let before = self.open.bytes.len();
        append_frame(&mut self.open.bytes, &payload);
        let s = op.sequence_number.get();
        self.open.max_seq = match self.open.max_seq {
            None => Some(s),
            Some(m) => if s > m {
                Some(s)
            } else {
                Some(m)
            },
        };
        proof {
            let ops0 = self.open.ops@;
            self.open.ops@ = ops0.push(op@);
            lemma_op_frames_snoc(ops0, op@);
            assert(self.open.bytes@ =~= segment_header() + op_frames(self.open.ops@));
            assert(self.open.ops@.drop_last() =~= ops0);
            assert(self.open.ops@.last() == op@);
            assert forall|i: int| 0 <= i < self.open.ops@.len() implies frameable(
                #[trigger] self.open.ops@[i],
            ) by {
                if i < ops0.len() {
                    assert(frameable(ops0[i]));
                }
            }
            assert(final(self).closed_view() =~= old(self).closed_view());
        }
        let total = self.open.bytes.len();
        Ok(WriteSummary { total_bytes: total, bytes_written: total - before })
    }

    /// Atomically closes the open segment and opens a fresh one with the
    /// next id.  Returns the descriptor of the just-closed segment.
    pub fn rotate(&mut self) -> (r: ClosedSegment)
        requires
            old(self).wf(),
            old(self).open_id() < u64::MAX,
        ensures
            final(self).wf(),
            r.id.0 == old(self).open_id(),
            r.size == old(self).open_bytes_view().len(),
            r.max_sequence == max_seq_of(old(self).open_ops()),
            final(self).closed_view() == old(self).closed_view().push(
                SegmentView { id: old(self).open_id(), bytes: old(self).open_bytes_view() },
            ),
            final(self).open_id() == old(self).open_id() + 1,
            final(self).open_ops() == Seq::<OpModel>::empty(),
    {
        let id = self.open.id;
        let mut fresh = OpenSegment::fresh(id + 1);
        core::mem::swap(&mut self.open, &mut fresh);
        // `fresh` now holds the segment that was open.
        let size = fresh.bytes.len() as u64;
        let max_seq = fresh.max_seq;
        proof {
            lemma_segment_parses_back(fresh.bytes@, fresh.ops@);
        }
        let closed_state = ClosedSegmentState { id, bytes: fresh.bytes, max_seq };
        self.closed.push(closed_state);
        proof {
            assert(final(self).closed_view() =~= old(self).closed_view().push(
                SegmentView { id: old(self).open_id(), bytes: old(self).open_bytes_view() },
            ));
            assert forall|i: int, j: int|
                0 <= i < j < self.closed@.len() implies self.closed@[i].id
                < self.closed@[j].id by {
                if j < self.closed@.len() - 1 {
                    assert(old(self).closed@[i].id < old(self).closed@[j].id);
                } else {
                    assert(old(self).closed@[i].id < old(self).open.id);
                }
            }
        }
        ClosedSegment { id: SegmentId(id), size, max_sequence: max_seq }
    }

    /// Deletes the closed segment with this id.  Fails if the id names the
    /// open segment or no closed segment: never created, or already deleted.
    pub fn delete(&mut self, id: SegmentId) -> (r: Result<(), WalDeleteError>)
        requires
            old(self).wf(),
        ensures
            final(self).wf(),
            final(self).open_id() == old(self).open_id(),
            final(self).open_ops() == old(self).open_ops(),
            final(self).open_bytes_view() == old(self).open_bytes_view(),
            match r {
                Ok(()) => exists|i: int|
                    0 <= i < old(self).closed_view().len() && (#[trigger] old(
                        self,
                    ).closed_view()[i]).id == id.0 && final(self).closed_view() == old(
                        self,
                    ).closed_view().remove(i),
                Err(WalDeleteError::OpenSegment) => id.0 == old(self).open_id() && *final(self)
                    == *old(self),
                Err(WalDeleteError::NotFound) => {
                    &&& id.0 != old(self).open_id()
                    &&& forall|i: int| 0 <= i < old(self).closed_view().len() ==> (#[trigger] old(
                        self,
                    ).closed_view()[i]).id != id.0
                    &&& *final(self) == *old(self)
                },
            },
    {
        if id.0 == self.open.id {
            return Err(WalDeleteError::OpenSegment);
        }
        let n = self.closed.len();
        let mut i: usize = 0;
        while i < n
            invariant
                old(self).wf(),
                self == old(self),
                n == self.closed@.len(),
                i <= n,
                forall|j: int| 0 <= j < i ==> (#[trigger] self.closed@[j]).id != id.0,
            decreases n - i,
        {
            if self.closed[i].id == id.0 {
                let ghost oldv = self.closed_view();
                self.closed.remove(i);
                proof {
                    let k = i as int;
                    assert(final(self).closed_view() =~= oldv.remove(k));
                    assert(oldv[k].id == id.0);
                    assert forall|a: int, b: int|
                        0 <= a < b < self.closed@.len() implies self.closed@[a].id
                        < self.closed@[b].id by {
                        if b < k {
                            assert(old(self).closed@[a].id < old(self).closed@[b].id);
                        } else if a < k {
                            assert(old(self).closed@[a].id < old(self).closed@[b + 1].id);
                        } else {
                            assert(old(self).closed@[a + 1].id < old(self).closed@[b + 1].id);
                        }
                    }
                }
                return Ok(());
            }
            i += 1;
        }
        Err(WalDeleteError::NotFound)
    }

    /// The descriptors of the closed segments, oldest first.
    pub fn closed_segments(&self) -> (r: Vec<ClosedSegment>)
        requires
            self.wf(),
        ensures
            r@.len() == self.closed_view().len(),
            forall|i: int| 0 <= i < r@.len() ==> {
                &&& (#[trigger] r@[i]).id.0 == self.closed_view()[i].id
                &&& r@[i].size == self.closed_view()[i].size()
                &&& r@[i].max_sequence == max_seq_of(self.closed_view()[i].ops())
            },
    {
        let n = self.closed.len();
        let mut r: Vec<ClosedSegment> = Vec::new();
        let mut i: usize = 0;
        while i < n
            invariant
                self.wf(),
                n == self.closed@.len(),
                i <= n,
                r@.len() == i,
                forall|j: int| 0 <= j < i ==> {
                    &&& (#[trigger] r@[j]).id.0 == self.closed_view()[j].id
                    &&& r@[j].size == self.closed_view()[j].size()
                    &&& r@[j].max_sequence == max_seq_of(self.closed_view()[j].ops())
                },
            decreases n - i,
        {
            let seg = &self.closed[i];
            proof {
                assert(self.closed@[i as int].wf());
            }
            r.push(ClosedSegment {
                id: SegmentId(seg.id),
                size: seg.bytes.len() as u64,
                max_sequence: seg.max_seq,
            });
            i += 1;
        }
        r
    }

    /// Copies of every live segment's byte image, closed ones first in
    /// creation order, the open segment last: what a caller mirrors to
    /// storage, and what a restart hands back to [`Wal::recover`].
    #[verifier::loop_isolation(false)]
    pub fn segment_images(&self) -> (r: Vec<(u64, Vec<u8>)>)
        requires
            self.wf(),
        ensures
            r@.len() == self.closed_view().len() + 1,
            forall|i: int| 0 <= i < self.closed_view().len() ==> (#[trigger] r@[i]).0
                == self.closed_view()[i].id && r@[i].1@ == self.closed_view()[i].bytes,
            r@.last().0 == self.open_id(),
            r@.last().1@ == self.open_bytes_view(),
            forall|i: int| 0 <= i < r@.len() ==> has_valid_header((#[trigger] r@[i]).1@),
            forall|i: int, j: int| 0 <= i < j < r@.len() ==> (#[trigger] r@[i]).0 != (
            #[trigger] r@[j]).0,
    {
        let mut r: Vec<(u64, Vec<u8>)> = Vec::new();
        let n = self.closed.len();
        let mut i: usize = 0;
        while i < n
            invariant
                i <= n,
                n == self.closed@.len(),
                r@.len() == i,
                forall|j: int| 0 <= j < i ==> (#[trigger] r@[j]).0 == self.closed_view()[j].id
                    && r@[j].1@ == self.closed_view()[j].bytes,
                forall|j: int| 0 <= j < i ==> has_valid_header((#[trigger] r@[j]).1@),
            decreases n - i,
        {
            proof {
                assert(self.closed@[i as int].wf());
            }
            r.push((self.closed[i].id, clone_bytes(&self.closed[i].bytes)));
            i += 1;
        }
        proof {
            lemma_segment_parses_back(self.open.bytes@, self.open.ops@);
        }
        r.push((self.open.id, clone_bytes(&self.open.bytes)));
        proof {
            self.lemma_closed_ids_sorted();
            assert forall|a: int, b: int| 0 <= a < b < r@.len() implies (#[trigger] r@[a]).0
                != (#[trigger] r@[b]).0 by {
                if b < r@.len() - 1 {
                    assert(self.closed_view()[a].id < self.closed_view()[b].id);
                } else {
                    assert(self.closed_view()[a].id < self.open_id());
                }
            }
        }
        r
    }

    /// A forward-only reader over the records of a closed segment.
    pub fn reader_for(&self, id: SegmentId) -> (r: Result<SegmentReader, WalReadError>)
        requires
            self.wf(),
        ensures
            match r {
                Ok(rd) => {
                    &&& rd.wf()
                    &&& exists|i: int|
                        0 <= i < self.closed_view().len() && (#[trigger] self.closed_view()[
                        i]).id == id.0 && rd@ == self.closed_view()[i].ops()
                },
                Err(WalReadError::NotFound) => forall|i: int|
                    0 <= i < self.closed_view().len() ==> (#[trigger] self.closed_view()[i]).id
                        != id.0,
            },
    {
        let n = self.closed.len();
        let mut i: usize = 0;
        while i < n
            invariant
                self.wf(),
                n == self.closed@.len(),
                i <= n,
                forall|j: int| 0 <= j < i ==> (#[trigger] self.closed@[j]).id != id.0,
            decreases n - i,
        {
            if self.closed[i].id == id.0 {
                let recs = decode_frames(self.closed[i].bytes.as_slice(), SEGMENT_HEADER_LEN);
                proof {
                    let k = i as int;
                    assert(self.closed_view()[k].id == id.0 && ops_view(recs@)
                        == self.closed_view()[k].ops());
                }
                return Ok(SegmentReader { remaining: recs });
            }
            i += 1;
        }
        Err(WalReadError::NotFound)
    }
}

/// A finite, forward-only stream over the operations a closed segment
/// holds, in record order.
pub struct SegmentReader {
    remaining: Vec<SequencedOp>,
}

impl SegmentReader {
    /// The operations not yet handed out, in order.
    pub closed spec fn view(&self) -> Seq<OpModel> {
        ops_view(self.remaining@)
    }

    pub closed spec fn wf(&self) -> bool {
        forall|i: int| 0 <= i < self.remaining@.len() ==> (#[trigger] self.remaining@[i]).wf()
    }

    /// The whole remaining stream as one list of operations.
    pub fn into_ops(self) -> (r: Vec<SequencedOp>)
        requires
            self.wf(),
        ensures
            ops_view(r@) == self@,
            forall|i: int| 0 <= i < r@.len() ==> (#[trigger] r@[i]).wf(),
    {
        self.remaining
    }

    /// How many records remain in the stream.
    pub fn remaining(&self) -> (r: usize)
        ensures
            r == self@.len(),
    {
        self.remaining.len()
    }

    /// The next record's operation, or nothing at the end of the stream.
    pub fn next_op(&mut self) -> (r: Option<SequencedOp>)
        requires
            old(self).wf(),
        ensures
            final(self).wf(),
            match r {
                Some(op) => {
                    &&& old(self)@.len() > 0
                    &&& op@ == old(self)@[0]
                    &&& op.wf()
                    &&& final(self)@ == old(self)@.drop_first()
                },
                None => old(self)@.len() == 0 && final(self)@ == old(self)@,
            },
    {
        if self.remaining.len() == 0 {
            return None;
        }
        let op = self.remaining.remove(0);
        proof {
            assert(final(self)@ =~= old(self)@.drop_first());
            assert(old(self).remaining@[0].wf());
        }
        Some(op)
    }
}

/// Clones a byte vector.
fn clone_bytes(v: &Vec<u8>) -> (r: Vec<u8>)
    ensures
        r@ == v@,
{
    let mut r: Vec<u8> = Vec::new();
    let n = v.len();
    let mut i: usize = 0;
    while i < n
        invariant
            n == v@.len(),
            i <= n,
            r@ == v@.take(i as int),
        decreases n - i,
    {
        r.push(v[i]);
        proof {
            assert(v@.take(i + 1) =~= v@.take(i as int).push(v@[i as int]));
        }
        i += 1;
    }
    proof {
        assert(v@.take(n as int) =~= v@);
    }
    r
}

/// The greatest sequence number among the decoded operations.
pub fn max_seq_of_ops(ops: &Vec<SequencedOp>) -> (r: Option<u64>)
    ensures
        r == max_seq_of(ops_view(ops@)),
{
    let n = ops.len();
    let mut r: Option<u64> = None;
    let mut i: usize = 0;
    proof {
        assert(ops_view(ops@).take(0) =~= Seq::<OpModel>::empty());
    }
    while i < n
        invariant
            n == ops@.len(),
            i <= n,
            r == max_seq_of(ops_view(ops@).take(i as int)),
        decreases n - i,
    {
        let s = ops[i].sequence_number.get();
        r = match r {
            None => Some(s),
            Some(m) => if s > m {
                Some(s)
            } else {
                Some(m)
            },
        };
        proof {
            let v = ops_view(ops@);
            assert(v.take(i + 1).drop_last() =~= v.take(i as int));
            assert(v.take(i + 1).last() == ops@[i as int]@);
        }
        i += 1;
    }
    proof {
        assert(ops_view(ops@).take(n as int) =~= ops_view(ops@));
    }
    r
}

} // verus!
