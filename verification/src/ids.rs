//! Opaque 64-bit identifiers used throughout the ingest core, and the
//! printable partition key.

use vstd::prelude::*;

verus! {

/// Identifier of a namespace.
#[derive(Clone, Copy, Debug, PartialEq, Eq, Structural)]
pub struct NamespaceId(pub u64);

impl NamespaceId {
    pub fn new(v: u64) -> (r: Self)
        ensures
            r.0 == v,
    {
        NamespaceId(v)
    }

    pub fn get(&self) -> (r: u64)
        ensures
            r == self.0,
    {
        self.0
    }
}

/// Identifier of a table within a namespace.
#[derive(Clone, Copy, Debug, PartialEq, Eq, Structural)]
pub struct TableId(pub u64);

impl TableId {
    pub fn new(v: u64) -> (r: Self)
        ensures
            r.0 == v,
    {
        TableId(v)
    }

    pub fn get(&self) -> (r: u64)
        ensures
            r == self.0,
    {
        self.0
    }
}

/// Identifier a partition was registered under in the catalog.
#[derive(Clone, Copy, Debug, PartialEq, Eq, Structural)]
pub struct PartitionId(pub u64);

impl PartitionId {
    pub fn new(v: u64) -> (r: Self)
        ensures
            r.0 == v,
    {
        PartitionId(v)
    }

    pub fn get(&self) -> (r: u64)
        ensures
            r == self.0,
    {
        self.0
    }
}

/// Per-operation tag issued by the timestamp oracle.  Orders records within
/// one append path; it is not a global order over concurrent writers.
#[derive(Clone, Copy, Debug, PartialEq, Eq, Structural)]
pub struct SequenceNumber(pub u64);

impl SequenceNumber {
    pub fn new(v: u64) -> (r: Self)
        ensures
            r.0 == v,
    {
        SequenceNumber(v)
    }

    pub fn get(&self) -> (r: u64)
        ensures
            r == self.0,
    {
        self.0
    }
}

/// Identifier of one write-ahead-log segment file, assigned monotonically at
/// segment creation.
#[derive(Clone, Copy, Debug, PartialEq, Eq, Structural)]
pub struct SegmentId(pub u64);

impl SegmentId {
    pub fn new(v: u64) -> (r: Self)
        ensures
            r.0 == v,
    {
        SegmentId(v)
    }

    pub fn get(&self) -> (r: u64)
        ensures
            r == self.0,
    {
        self.0
    }
}

/// Whether a byte is printable ASCII (space through tilde).
pub open spec fn printable_byte(b: u8) -> bool {
    0x20 <= b <= 0x7e
}

/// Key identifying a partition of a table: a short printable string, for
/// example a date.
#[derive(Clone, Debug)]
pub struct PartitionKey {
    bytes: Vec<u8>,
}

impl PartitionKey {
    /// The byte representation of the key.
    pub closed spec fn view(&self) -> Seq<u8> {
        self.bytes@
    }

    /// Every partition key is made of printable ASCII bytes.
    pub open spec fn wf(&self) -> bool {
        forall|i: int| 0 <= i < self@.len() ==> printable_byte(self@[i])
    }

    /// Builds a key from raw bytes; refuses bytes that are not printable
    /// ASCII.
    pub fn new(bytes: Vec<u8>) -> (r: Option<Self>)
        ensures
            match r {
                Some(k) => k@ == bytes@ && k.wf(),
                None => !(forall|i: int| 0 <= i < bytes@.len() ==> printable_byte(bytes@[i])),
            },
    {
        let n = bytes.len();
        let mut i: usize = 0;
        while i < n
            invariant
                n == bytes@.len(),
                i <= n,
                forall|j: int| 0 <= j < i ==> printable_byte(bytes@[j]),
            decreases n - i,
        {
            let b = bytes[i];
            if b < 0x20 || b > 0x7e {
                return None;
            }
            i += 1;
        }
        Some(PartitionKey { bytes })
    }

    /// The key's bytes.
    pub fn as_bytes(&self) -> (r: &Vec<u8>)
        ensures
            r@ == self@,
    {
        &self.bytes
    }

    /// Byte-for-byte equality of two keys.
    pub fn eq_key(&self, other: &Self) -> (r: bool)
        ensures
            r == (self@ == other@),
    {
        let n = self.bytes.len();
        if n != other.bytes.len() {
            assert(self@.len() != other@.len());
            return false;
        }
        let mut i: usize = 0;
        while i < n
            invariant
                n == self@.len(),
                n == other@.len(),
                i <= n,
                forall|j: int| 0 <= j < i ==> self@[j] == other@[j],
            decreases n - i,
        {
            if self.bytes[i] != other.bytes[i] {
                return false;
            }
            i += 1;
        }
        assert(self@ =~= other@);
        true
    }
}

} // verus!
