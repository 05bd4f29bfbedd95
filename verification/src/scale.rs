//! The canonical byte encodings the engine relies on: little-endian
//! integers, compact length prefixes, and the per-category index blob.

use vstd::prelude::*;

use crate::types::ReportId;
use parity_scale_codec::Decode;
use parity_scale_codec::Encode;

verus! {

/// Two little-endian bytes of a value below 2^16.
pub open spec fn le16(v: nat) -> Seq<u8>
    recommends
        v < 0x10000,
{
    seq![(v % 256) as u8, ((v / 256) % 256) as u8]
}

/// Four little-endian bytes of a value below 2^32.
pub open spec fn le32(v: nat) -> Seq<u8>
    recommends
        v < 0x100000000,
{
    seq![
        (v % 256) as u8,
        ((v / 256) % 256) as u8,
        ((v / 65536) % 256) as u8,
        ((v / 16777216) % 256) as u8,
    ]
}

/// The canonical encoding of a 64-bit value: eight little-endian bytes.
pub open spec fn scale_u64(v: u64) -> Seq<u8> {
    seq![
        (v & 0xff) as u8,
        ((v >> 8) & 0xff) as u8,
        ((v >> 16) & 0xff) as u8,
        ((v >> 24) & 0xff) as u8,
        ((v >> 32) & 0xff) as u8,
        ((v >> 40) & 0xff) as u8,
        ((v >> 48) & 0xff) as u8,
        ((v >> 56) & 0xff) as u8,
    ]
}

/// The compact length prefix that precedes a collection of `n` items:
/// one, two, four or five bytes depending on the magnitude of `n`.
pub open spec fn compact_prefix(n: nat) -> Seq<u8>
    recommends
        n <= u32::MAX,
{
    if n < 64 {
        seq![(n * 4) as u8]
    } else if n < 16384 {
        le16(n * 4 + 1)
    } else if n < 1073741824 {
        le32(n * 4 + 2)
    } else {
        seq![3u8] + le32(n)
    }
}

/// The encoding of the report-identity material: the category tag raw,
/// the opaque time slot with its length prefix, then the offender raw.
pub open spec fn triple_encoding(kind: Seq<u8>, slot_bytes: Seq<u8>, offender: Seq<u8>) -> Seq<u8> {
    kind + compact_prefix(slot_bytes.len()) + slot_bytes + offender
}

/// The encoding of one time-index entry: the slot's eight bytes, then
/// the 32 bytes of the report identifier.
pub open spec fn entry_encoding(e: (u64, Seq<u8>)) -> Seq<u8> {
    scale_u64(e.0) + e.1
}

/// The concatenated encodings of a sequence of time-index entries.
pub open spec fn entries_encoding(l: Seq<(u64, Seq<u8>)>) -> Seq<u8>
    decreases l.len(),
{
    if l.len() == 0 {
        Seq::empty()
    } else {
        entry_encoding(l[0]) + entries_encoding(l.drop_first())
    }
}

/// The per-category index blob: a compact length prefix followed by
/// the entries in order.
pub open spec fn index_encoding(l: Seq<(u64, Seq<u8>)>) -> Seq<u8> {
    compact_prefix(l.len()) + entries_encoding(l)
}

/// A well-formed index list: encodable length, 32-byte identifiers.
pub open spec fn wf_index_list(l: Seq<(u64, Seq<u8>)>) -> bool {
    &&& l.len() <= u32::MAX
    &&& forall|i: int| 0 <= i < l.len() ==> (#[trigger] l[i]).1.len() == 32
}

/// The entries of an in-memory index, with identifiers as byte strings.
pub open spec fn entries_view(v: Seq<(u64, ReportId)>) -> Seq<(u64, Seq<u8>)> {
    v.map_values(|p: (u64, ReportId)| (p.0, p.1@))
}

/// Relies on `parity_scale_codec`'s `Encode` for `u64`: the value's
/// eight bytes, least significant first.
#[verifier::external_body]
pub fn scale_encode_u64(v: u64) -> (r: Vec<u8>)
    ensures
        r@ == scale_u64(v),
{
    v.encode()
}

/// Relies on `parity_scale_codec`'s `Encode` for tuples, byte arrays
/// and byte vectors: the fields' encodings concatenated, the arrays
/// raw and the vector behind its compact length prefix.
#[verifier::external_body]
pub fn scale_encode_triple(kind: &[u8; 16], slot_bytes: &Vec<u8>, offender: &[u8; 32]) -> (r: Vec<
    u8,
>)
    requires
        slot_bytes@.len() <= u32::MAX,
    ensures
        r@ == triple_encoding(kind@, slot_bytes@, offender@),
{
    (kind, slot_bytes, offender).encode()
}

/// Relies on `parity_scale_codec`'s `Encode` for vectors of
/// `(u64, [u8; 32])` pairs: a compact length prefix, then each pair as
/// eight little-endian bytes followed by the raw array.
#[verifier::external_body]
pub fn scale_encode_index(entries: &Vec<(u64, ReportId)>) -> (r: Vec<u8>)
    requires
        entries@.len() <= u32::MAX,
    ensures
        r@ == index_encoding(entries_view(entries@)),
{
    entries.encode()
}

/// Relies on `parity_scale_codec`'s `Decode` for vectors of
/// `(u64, [u8; 32])` pairs: the canonical encoding of a list decodes
/// back to that list; anything the crate rejects becomes `None`.
#[verifier::external_body]
pub fn scale_decode_index(blob: &Vec<u8>) -> (r: Option<Vec<(u64, ReportId)>>)
    ensures
        r is Some <== exists|l: Seq<(u64, Seq<u8>)>| wf_index_list(l) && blob@ == index_encoding(
            l,
        ),
        r matches Some(v) ==> forall|l: Seq<(u64, Seq<u8>)>|
            wf_index_list(l) && blob@ == index_encoding(l) ==> entries_view(v@) == l,
{
    match <Vec<(u64, ReportId)>>::decode(&mut &blob[..]) {
        Ok(v) => Some(v),
        Err(_) => None,
    }
}

/// Distinct 64-bit values have distinct canonical encodings.
pub proof fn lemma_scale_u64_injective(a: u64, b: u64)
    requires
        scale_u64(a) == scale_u64(b),
    ensures
        a == b,
{
    assert(scale_u64(a)[0] == scale_u64(b)[0]);
    assert(scale_u64(a)[1] == scale_u64(b)[1]);
    assert(scale_u64(a)[2] == scale_u64(b)[2]);
    assert(scale_u64(a)[3] == scale_u64(b)[3]);
    assert(scale_u64(a)[4] == scale_u64(b)[4]);
    assert(scale_u64(a)[5] == scale_u64(b)[5]);
    assert(scale_u64(a)[6] == scale_u64(b)[6]);
    assert(scale_u64(a)[7] == scale_u64(b)[7]);
    assert(((a & 0xff) as u8 == (b & 0xff) as u8 && ((a >> 8) & 0xff) as u8 == ((b >> 8)
        & 0xff) as u8 && ((a >> 16) & 0xff) as u8 == ((b >> 16) & 0xff) as u8 && ((a >> 24)
        & 0xff) as u8 == ((b >> 24) & 0xff) as u8 && ((a >> 32) & 0xff) as u8 == ((b >> 32)
        & 0xff) as u8 && ((a >> 40) & 0xff) as u8 == ((b >> 40) & 0xff) as u8 && ((a >> 48)
        & 0xff) as u8 == ((b >> 48) & 0xff) as u8 && ((a >> 56) & 0xff) as u8 == ((b >> 56)
        & 0xff) as u8) ==> a == b) by (bit_vector);
}

} // verus!
