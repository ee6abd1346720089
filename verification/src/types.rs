//! Value types of the registry: hashes, addresses, audit records and errors.

use vstd::prelude::*;

verus! {

/// The errors that registry operations surface to callers.
#[derive(Clone, Copy, PartialEq, Eq, Structural, Debug)]
pub enum RegistryError {
    /// A rating outside the inclusive range 0 to 5.
    RatingOutOfRange,
    /// A summary that is empty or longer than 500 characters.
    SummaryInvalid,
    /// A pagination start index at or past the end of the global hash index.
    IndexOutOfBounds,
    /// A latest-audit lookup for a hash that was never audited.
    NotFound,
    /// A withdrawal attempted by a caller other than the owner.
    Unauthorized,
}

/// Compares two 32-byte arrays for equality, byte for byte.
fn bytes32_eq(a: &[u8; 32], b: &[u8; 32]) -> (r: bool)
    ensures
        r == (a@ == b@),
{
    let mut i: usize = 0;
    while i < 32
        invariant
            i <= 32,
            forall|j: int| 0 <= j < i ==> a@[j] == b@[j],
        decreases 32 - i,
    {
        if a[i] != b[i] {
            return false;
        }
        i += 1;
    }
    proof {
        assert(a@ =~= b@);
    }
    true
}

/// A 32-byte content hash: the primary key under which audits are filed.
///
/// Opaque and compared byte for byte; immutable once constructed.
#[derive(Clone, Copy, Debug)]
pub struct ContentHash {
    bytes: [u8; 32],
}

impl View for ContentHash {
    type V = Seq<u8>;

    closed spec fn view(&self) -> Seq<u8> {
        self.bytes@
    }
}

impl ContentHash {
    /// Wraps 32 raw bytes as a content hash.
    pub fn new(bytes: [u8; 32]) -> (h: ContentHash)
        ensures
            h@ == bytes@,
    {
        ContentHash { bytes }
    }
}

impl PartialEq for ContentHash {
    fn eq(&self, other: &ContentHash) -> (r: bool) {
        bytes32_eq(&self.bytes, &other.bytes)
    }
}

impl vstd::std_specs::cmp::PartialEqSpecImpl for ContentHash {
    open spec fn obeys_eq_spec() -> bool {
        true
    }

    open spec fn eq_spec(&self, other: &ContentHash) -> bool {
        self@ == other@
    }
}

/// A 32-byte identity of a caller: the owner or the submitter of an audit.
#[derive(Clone, Copy, Debug)]
pub struct Address {
    bytes: [u8; 32],
}

impl View for Address {
    type V = Seq<u8>;

    closed spec fn view(&self) -> Seq<u8> {
        self.bytes@
    }
}

impl Address {
    /// Wraps 32 raw bytes as an identity.
    pub fn new(bytes: [u8; 32]) -> (a: Address)
        ensures
            a@ == bytes@,
    {
        Address { bytes }
    }
}

impl PartialEq for Address {
    fn eq(&self, other: &Address) -> (r: bool) {
        bytes32_eq(&self.bytes, &other.bytes)
    }
}

impl vstd::std_specs::cmp::PartialEqSpecImpl for Address {
    open spec fn obeys_eq_spec() -> bool {
        true
    }

    open spec fn eq_spec(&self, other: &Address) -> bool {
        self@ == other@
    }
}

/// The mathematical content of one audit record.
pub ghost struct AuditView {
    pub stars: u8,
    pub summary: Seq<char>,
    pub auditor: Seq<u8>,
    pub timestamp: u64,
}

/// One immutable audit record: produced once by a successful registration,
/// never mutated afterwards.
#[derive(Debug)]
pub struct Audit {
    /// Star rating, always within 0 to 5 once stored.
    pub stars: u8,
    /// Free-text summary, non-empty and at most 500 characters once stored.
    pub summary: String,
    /// Identity of the submitter, fixed at creation.
    pub auditor: Address,
    /// Host-supplied timestamp, fixed at creation.
    pub timestamp: u64,
}

impl View for Audit {
    type V = AuditView;

    open spec fn view(&self) -> AuditView {
        AuditView {
            stars: self.stars,
            summary: self.summary@,
            auditor: self.auditor@,
            timestamp: self.timestamp,
        }
    }
}

impl Clone for Audit {
    fn clone(&self) -> (r: Audit)
        ensures
            r@ == self@,
    {
        Audit {
            stars: self.stars,
            summary: self.summary.clone(),
            auditor: self.auditor,
            timestamp: self.timestamp,
        }
    }
}

/// The notification emitted by a successful registration, carrying exactly
/// the registered fields for external observers.
#[derive(Debug)]
pub struct AuditEvent {
    pub hash: ContentHash,
    pub stars: u8,
    pub summary: String,
    pub auditor: Address,
    pub timestamp: u64,
}

/// One row of a paginated read: a hash together with its latest audit.
#[derive(Debug)]
pub struct AuditRow {
    pub hash: ContentHash,
    pub stars: u8,
    pub summary: String,
    pub auditor: Address,
    pub timestamp: u64,
}

} // verus!
