//! Report identity derivation: a pure function from category, time
//! slot and offender to a fixed-size deterministic identifier.

use vstd::prelude::*;

use crate::scale::scale_encode_triple;
use crate::scale::scale_encode_u64;
use crate::scale::scale_u64;
use crate::scale::triple_encoding;
use crate::types::FarmerId;
use crate::types::Kind;
use crate::types::ReportId;

verus! {

/// What `sp_crypto_hashing::blake2_256` returns for the given bytes:
/// a function of its argument alone.
pub uninterp spec fn blake2b_256_of(data: Seq<u8>) -> Seq<u8>;

/// Relies on `sp_crypto_hashing::blake2_256`: the 32-byte digest of
/// the input, depending on the input bytes alone.
#[verifier::external_body]
fn blake2_256_digest(data: &Vec<u8>) -> (r: [u8; 32])
    ensures
        r@ == blake2b_256_of(data@),
{
    sp_crypto_hashing::blake2_256(&data[..])
}

/// The identifier of one report: the digest of the category, the
/// canonically encoded time slot, and the offender. Deterministic:
/// identical inputs always derive the identical identifier.
pub open spec fn report_id_of(kind: Seq<u8>, time_slot: u64, offender: Seq<u8>) -> Seq<u8> {
    blake2b_256_of(triple_encoding(kind, scale_u64(time_slot), offender))
}

/// The canonical byte encoding of a time slot.
pub fn opaque_time_slot(time_slot: u64) -> (r: Vec<u8>)
    ensures
        r@ == scale_u64(time_slot),
{
    scale_encode_u64(time_slot)
}

/// Computes the identifier for the given report properties.
///
/// The identifier depends on the offence kind, the time slot and the
/// identity of the offender, and on nothing else.
pub fn report_id(kind: &Kind, time_slot: u64, offender: &FarmerId) -> (r: ReportId)
    ensures
        r@ == report_id_of(kind@, time_slot, offender@),
{
    let slot_bytes = opaque_time_slot(time_slot);
    let material = scale_encode_triple(kind, &slot_bytes, &offender.bytes);
    blake2_256_digest(&material)
}

} // verus!
