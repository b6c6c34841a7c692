//! The moment of a visit, and the twelve bytes under which the ledger keeps it.

use vstd::prelude::*;
use vstd::bytes::{
    lemma_auto_spec_u32_to_from_le_bytes, lemma_auto_spec_u64_to_from_le_bytes,
    spec_u32_from_le_bytes, spec_u32_to_le_bytes, spec_u64_from_le_bytes, spec_u64_to_le_bytes,
    u32_from_le_bytes, u32_to_le_bytes, u64_from_le_bytes, u64_to_le_bytes,
};
use vstd::slice::slice_subrange;

verus! {

/// One second, in nanoseconds.
pub const NANOS_PER_SECOND: u32 = 1_000_000_000;

/// The length of a stored timestamp.
pub const TIMESTAMP_BYTES: usize = 12;

/// A point in time: whole seconds since the Unix epoch and the nanoseconds
/// within that second. The derived order is the order in time.
#[derive(Clone, Copy, Debug, PartialEq, Eq, PartialOrd, Ord, Hash, Structural)]
pub struct Timestamp {
    secs: u64,
    nanos: u32,
}

impl Timestamp {
    #[verifier::type_invariant]
    spec fn well_formed(self) -> bool {
        self.nanos < NANOS_PER_SECOND
    }

    /// Seconds since the epoch.
    pub closed spec fn spec_secs(self) -> u64 {
        self.secs
    }

    /// Nanoseconds within the second.
    pub closed spec fn spec_nanos(self) -> u32 {
        self.nanos
    }

    /// The time as one number: nanoseconds since the epoch.
    pub open spec fn total_nanos(self) -> int {
        self.spec_secs() * NANOS_PER_SECOND + self.spec_nanos()
    }

    /// The stored form: the seconds as eight bytes, then the nanoseconds as
    /// four, both with the lowest byte first.
    pub open spec fn spec_encode(self) -> Seq<u8> {
        spec_u64_to_le_bytes(self.spec_secs()) + spec_u32_to_le_bytes(self.spec_nanos())
    }

    /// The timestamp with these parts.
    pub closed spec fn spec_new(secs: u64, nanos: u32) -> Timestamp {
        Timestamp { secs, nanos }
    }

    /// What stored bytes stand for; none where they are no stored timestamp.
    pub open spec fn spec_decode(bytes: Seq<u8>) -> Option<Timestamp> {
        if decodable(bytes) {
            Some(
                Timestamp::spec_new(
                    spec_u64_from_le_bytes(bytes.subrange(0, 8)),
                    spec_u32_from_le_bytes(bytes.subrange(8, 12)),
                ),
            )
        } else {
            None
        }
    }

    /// The timestamp made of these parts; none when `nanos` is not within one
    /// second.
    pub fn new(secs: u64, nanos: u32) -> (made: Option<Timestamp>)
        ensures
            made is Some <==> nanos < NANOS_PER_SECOND,
            made matches Some(stamp) ==> stamp == Timestamp::spec_new(secs, nanos)
                && stamp.spec_secs() == secs && stamp.spec_nanos() == nanos,
    {
        if nanos < NANOS_PER_SECOND {
            Some(Timestamp { secs, nanos })
        } else {
            None
        }
    }

    /// The timestamp made of these parts, of which the nanoseconds are within
    /// one second.
    pub fn from_parts(secs: u64, nanos: u32) -> (stamp: Timestamp)
        requires
            nanos < NANOS_PER_SECOND,
        ensures
            stamp == Timestamp::spec_new(secs, nanos),
            stamp.spec_secs() == secs,
            stamp.spec_nanos() == nanos,
    {
        Timestamp { secs, nanos }
    }

    /// Seconds since the epoch.
    pub fn secs(&self) -> (secs: u64)
        ensures
            secs == self.spec_secs(),
    {
        self.secs
    }

    /// Nanoseconds within the second, always less than a second.
    pub fn nanos(&self) -> (nanos: u32)
        ensures
            nanos == self.spec_nanos(),
            nanos < NANOS_PER_SECOND,
    {
        proof {
            use_type_invariant(self);
        }
        self.nanos
    }

    /// Whether this moment is strictly later than `other`.
    pub fn is_after(&self, other: &Timestamp) -> (later: bool)
        ensures
            later == (self.total_nanos() > other.total_nanos()),
    {
        proof {
            use_type_invariant(self);
            use_type_invariant(other);
            lemma_total_nanos_order(*self, *other);
        }
        self.secs > other.secs || (self.secs == other.secs && self.nanos > other.nanos)
    }

    /// The stored form of the timestamp.
    pub fn encode(&self) -> (bytes: Vec<u8>)
        ensures
            bytes@ == self.spec_encode(),
            bytes@.len() == TIMESTAMP_BYTES,
    {
        let mut bytes = u64_to_le_bytes(self.secs);
        let mut tail = u32_to_le_bytes(self.nanos);
        bytes.append(&mut tail);
        bytes
    }

    /// Reads a stored timestamp. The bytes are refused unless they are twelve
    /// and the nanoseconds they hold are within one second.
    pub fn decode(bytes: &[u8]) -> (read: Option<Timestamp>)
        ensures
            read == Timestamp::spec_decode(bytes@),
            read matches Some(stamp) ==> stamp.spec_encode() == bytes@,
    {
        if bytes.len() != TIMESTAMP_BYTES {
            return None;
        }
        let secs = u64_from_le_bytes(slice_subrange(bytes, 0, 8));
        let nanos = u32_from_le_bytes(slice_subrange(bytes, 8, 12));
        if nanos < NANOS_PER_SECOND {
            proof {
                lemma_auto_spec_u64_to_from_le_bytes();
                lemma_auto_spec_u32_to_from_le_bytes();
                assert(bytes@ =~= bytes@.subrange(0, 8) + bytes@.subrange(8, 12));
            }
            Some(Timestamp { secs, nanos })
        } else {
            None
        }
    }
}

/// The bytes are a stored timestamp: twelve of them, the last four holding
/// less than a second of nanoseconds.
pub open spec fn decodable(bytes: Seq<u8>) -> bool {
    bytes.len() == TIMESTAMP_BYTES && spec_u32_from_le_bytes(bytes.subrange(8, 12))
        < NANOS_PER_SECOND
}

/// With the nanoseconds within one second, comparing seconds first and
/// nanoseconds second compares the moments.
proof fn lemma_total_nanos_order(a: Timestamp, b: Timestamp)
    requires
        a.spec_nanos() < NANOS_PER_SECOND,
        b.spec_nanos() < NANOS_PER_SECOND,
    ensures
        a.total_nanos() > b.total_nanos() <==> (a.spec_secs() > b.spec_secs() || (a.spec_secs()
            == b.spec_secs() && a.spec_nanos() > b.spec_nanos())),
{
    let unit = NANOS_PER_SECOND as int;
    if a.spec_secs() > b.spec_secs() {
        assert(a.spec_secs() * unit >= (b.spec_secs() + 1) * unit) by (nonlinear_arith)
            requires
                a.spec_secs() > b.spec_secs(),
                unit > 0,
        ;
        assert((b.spec_secs() + 1) * unit == b.spec_secs() * unit + unit) by (nonlinear_arith);
    } else if a.spec_secs() < b.spec_secs() {
        assert(b.spec_secs() * unit >= (a.spec_secs() + 1) * unit) by (nonlinear_arith)
            requires
                b.spec_secs() > a.spec_secs(),
                unit > 0,
        ;
        assert((a.spec_secs() + 1) * unit == a.spec_secs() * unit + unit) by (nonlinear_arith);
    }
}

/// What is written is read back unchanged: a timestamp whose nanoseconds are
/// within one second decodes from its stored form to itself.
pub proof fn lemma_decode_of_encode(stamp: Timestamp)
    requires
        stamp.spec_nanos() < NANOS_PER_SECOND,
    ensures
        Timestamp::spec_decode(stamp.spec_encode()) == Some(stamp),
{
    lemma_auto_spec_u64_to_from_le_bytes();
    lemma_auto_spec_u32_to_from_le_bytes();
    let head = spec_u64_to_le_bytes(stamp.spec_secs());
    let tail = spec_u32_to_le_bytes(stamp.spec_nanos());
    assert(stamp.spec_encode().subrange(0, 8) =~= head);
    assert(stamp.spec_encode().subrange(8, 12) =~= tail);
}

/// What was read is written back as the same bytes: stored bytes that decode
/// are the stored form of what they decode to.
pub proof fn lemma_encode_of_decode(bytes: Seq<u8>)
    requires
        decodable(bytes),
    ensures
        Timestamp::spec_decode(bytes) matches Some(stamp) && stamp.spec_encode() == bytes
            && stamp.spec_nanos() < NANOS_PER_SECOND,
{
    lemma_auto_spec_u64_to_from_le_bytes();
    lemma_auto_spec_u32_to_from_le_bytes();
    assert(bytes =~= bytes.subrange(0, 8) + bytes.subrange(8, 12));
}

/// Two timestamps with the same stored form are the same timestamp.
pub proof fn lemma_encode_injective(a: Timestamp, b: Timestamp)
    requires
        a.spec_encode() == b.spec_encode(),
    ensures
        a == b,
{
    lemma_auto_spec_u64_to_from_le_bytes();
    lemma_auto_spec_u32_to_from_le_bytes();
    let head_a = spec_u64_to_le_bytes(a.spec_secs());
    let head_b = spec_u64_to_le_bytes(b.spec_secs());
    let tail_a = spec_u32_to_le_bytes(a.spec_nanos());
    let tail_b = spec_u32_to_le_bytes(b.spec_nanos());
    assert(a.spec_encode().subrange(0, 8) =~= head_a);
    assert(b.spec_encode().subrange(0, 8) =~= head_b);
    assert(a.spec_encode().subrange(8, 12) =~= tail_a);
    assert(b.spec_encode().subrange(8, 12) =~= tail_b);
    assert(spec_u64_from_le_bytes(head_a) == a.spec_secs());
    assert(spec_u64_from_le_bytes(head_b) == b.spec_secs());
    assert(spec_u32_from_le_bytes(tail_a) == a.spec_nanos());
    assert(spec_u32_from_le_bytes(tail_b) == b.spec_nanos());
}

} // verus!
