use vstd::prelude::*;

verus! {

/// A category tag identifying one class of misbehaviour.
pub type Kind = [u8; 16];

/// A report identifier: the 32-byte content hash that names one
/// (category, time slot, offender) report.
pub type ReportId = [u8; 32];

/// The identifier of an accused participant: a 32-byte public key.
#[derive(Clone, Copy, PartialEq, Eq, Debug)]
pub struct FarmerId {
    /// The raw public-key bytes.
    pub bytes: [u8; 32],
}

impl View for FarmerId {
    type V = Seq<u8>;

    open spec fn view(&self) -> Seq<u8> {
        self.bytes@
    }
}

impl FarmerId {
    /// Builds a farmer identifier from a 32-byte slice.
    pub fn from_slice(data: &[u8]) -> (r: FarmerId)
        requires
            data@.len() == 32,
        ensures
            r@ == data@,
    {
        let mut bytes: [u8; 32] = [0; 32];
        let mut i: usize = 0;
        while i < 32
            invariant
                i <= 32,
                data@.len() == 32,
                forall|j: int| 0 <= j < i ==> bytes@[j] == data@[j],
            decreases 32 - i,
        {
            bytes[i] = data[i];
            i += 1;
        }
        assert(bytes@ =~= data@);
        FarmerId { bytes }
    }
}

/// The persisted payload of one report: the offender it accuses.
#[derive(Clone, Copy, PartialEq, Eq, Debug)]
pub struct OffenceDetails {
    /// The accused participant.
    pub offender: FarmerId,
}

impl View for OffenceDetails {
    type V = Seq<u8>;

    open spec fn view(&self) -> Seq<u8> {
        self.offender@
    }
}

/// The one domain error: every offender in the submission was already
/// on record for the same category and time slot.
#[derive(Clone, Copy, PartialEq, Eq, Structural, Debug)]
pub enum OffenceError {
    /// Nothing in the submission was new.
    DuplicateReport,
}

/// A domain event: one offence of the given kind was accepted at the
/// time slot whose canonical encoding is carried alongside.
#[derive(Clone, PartialEq, Eq, Debug)]
pub enum Event {
    /// An offence report with at least one novel offender was recorded.
    Offence(Kind, Vec<u8>),
}

impl View for Event {
    type V = (Seq<u8>, Seq<u8>);

    open spec fn view(&self) -> (Seq<u8>, Seq<u8>) {
        match self {
            Event::Offence(kind, slot) => (kind@, slot@),
        }
    }
}

/// An incoming misbehaviour report: a category, the time slot of the
/// incident, and the accused participants.
#[derive(Clone, Debug)]
pub struct Offence {
    /// The category of the misbehaviour.
    pub kind: Kind,
    /// When the misbehaviour happened.
    pub time_slot: u64,
    /// The accused participants.
    pub offenders: Vec<FarmerId>,
}

/// Compares two report identifiers byte for byte.
pub fn report_id_eq(a: &ReportId, b: &ReportId) -> (r: bool)
    ensures
        r == (a@ == b@),
{
    let mut i: usize = 0;
    while i < 32
        invariant
            i <= 32,
            forall|j: int| 0 <= j < i ==> a@[j] == b@[j],
        decreases 32 - i,
    {
        if a[i] != b[i] {
            assert(a@ != b@);
            return false;
        }
        i += 1;
    }
    assert(a@ =~= b@);
    true
}

/// Compares two category tags byte for byte.
pub fn kind_eq(a: &Kind, b: &Kind) -> (r: bool)
    ensures
        r == (a@ == b@),
{
    let mut i: usize = 0;
    while i < 16
        invariant
            i <= 16,
            forall|j: int| 0 <= j < i ==> a@[j] == b@[j],
        decreases 16 - i,
    {
        if a[i] != b[i] {
            assert(a@ != b@);
            return false;
        }
        i += 1;
    }
    assert(a@ =~= b@);
    true
}

/// Compares two byte strings for equality.
pub fn bytes_eq(a: &Vec<u8>, b: &Vec<u8>) -> (r: bool)
    ensures
        r == (a@ == b@),
{
    if a.len() != b.len() {
        assert(a@ != b@);
        return false;
    }
    let mut i: usize = 0;
    while i < a.len()
        invariant
            i <= a@.len(),
            a@.len() == b@.len(),
            forall|j: int| 0 <= j < i ==> a@[j] == b@[j],
        decreases a@.len() - i,
    {
        if a[i] != b[i] {
            assert(a@ != b@);
            return false;
        }
        i += 1;
    }
    assert(a@ =~= b@);
    true
}

} // verus!
