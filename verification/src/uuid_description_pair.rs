//! The stored unit: an identifier paired with its descriptor.

use vstd::prelude::*;

verus! {

use crate::constants::FEATURE_DESCRIPTION_LENGTH;
use crate::error::TreeError;
use crate::feature_description::FeatureDescription;
use vstd::bytes::spec_u64_from_le_bytes;
use vstd::bytes::spec_u64_to_le_bytes;
use vstd::bytes::u64_from_le_bytes;
use vstd::bytes::u64_to_le_bytes;
use vstd::bytes::lemma_auto_spec_u64_to_from_le_bytes;
use vstd::slice::slice_subrange;

/// The stored unit of the index: a caller-assigned 64-bit identifier paired
/// with the descriptor it names. The tree treats the identifier as opaque.
#[derive(Clone, Copy, Debug)]
pub struct UUIDDescriptionPair {
    pub uuid: u64,
    pub description: FeatureDescription,
}

/// Number of bytes of one encoded record: identifier plus descriptor.
pub const RECORD_BINARY_LENGTH: usize = 40;

/// Wire form of one record: 8-byte little-endian identifier, then the
/// descriptor bytes.
pub open spec fn spec_record_to_binary(r: (u64, Seq<u8>)) -> Seq<u8> {
    spec_u64_to_le_bytes(r.0) + r.1
}

/// Reads one record back from a 40-byte wire block.
pub open spec fn spec_record_from_binary(b: Seq<u8>) -> (u64, Seq<u8>)
    recommends
        b.len() == RECORD_BINARY_LENGTH,
{
    (spec_u64_from_le_bytes(b.subrange(0, 8)), b.subrange(8, RECORD_BINARY_LENGTH as int))
}

/// A record's view is well formed when its descriptor has full length.
pub open spec fn record_view_wf(r: (u64, Seq<u8>)) -> bool {
    r.1.len() == FEATURE_DESCRIPTION_LENGTH
}

/// Encoding then decoding a well-formed record yields the record back, and
/// the encoding always spans exactly 40 bytes.
pub proof fn lemma_record_round_trip(r: (u64, Seq<u8>))
    requires
        record_view_wf(r),
    ensures
        spec_record_to_binary(r).len() == RECORD_BINARY_LENGTH,
        spec_record_from_binary(spec_record_to_binary(r)) == r,
{
    lemma_auto_spec_u64_to_from_le_bytes();
    let b = spec_record_to_binary(r);
    assert(b.subrange(0, 8) =~= spec_u64_to_le_bytes(r.0));
    assert(b.subrange(8, RECORD_BINARY_LENGTH as int) =~= r.1);
}

impl View for UUIDDescriptionPair {
    type V = (u64, Seq<u8>);

    open spec fn view(&self) -> (u64, Seq<u8>) {
        (self.uuid, self.description@)
    }
}

impl UUIDDescriptionPair {
    pub fn new(uuid: u64, description: FeatureDescription) -> (r: UUIDDescriptionPair)
        ensures
            r@ == (uuid, description@),
    {
        UUIDDescriptionPair { uuid, description }
    }

    pub fn get_description(&self) -> (r: &FeatureDescription)
        ensures
            r@ == self@.1,
    {
        &self.description
    }

    pub fn get_uuid(&self) -> (r: u64)
        ensures
            r == self@.0,
    {
        self.uuid
    }

    /// The record in wire order: identifier, then descriptor bytes.
    pub fn to_binary(&self) -> (r: Vec<u8>)
        ensures
            r@ == spec_record_to_binary(self@),
            r@.len() == RECORD_BINARY_LENGTH,
    {
        let mut result = u64_to_le_bytes(self.uuid);
        let mut description = self.description.to_binary();
        result.append(&mut description);
        proof {
            lemma_auto_spec_u64_to_from_le_bytes();
        }
        result
    }

    /// Reads a record back from a 40-byte wire block. A block of any other
    /// length is corrupt.
    pub fn from_binary(binary: &[u8]) -> (r: Result<UUIDDescriptionPair, TreeError>)
        ensures
            match r {
                Ok(p) => binary@.len() == RECORD_BINARY_LENGTH && p@ == spec_record_from_binary(
                    binary@,
                ),
                Err(e) => binary@.len() != RECORD_BINARY_LENGTH && e == TreeError::LengthMismatch,
            },
    {
        if binary.len() != RECORD_BINARY_LENGTH {
            return Err(TreeError::LengthMismatch);
        }
        let uuid = u64_from_le_bytes(slice_subrange(binary, 0, 8));
        let description = FeatureDescription::from_binary(slice_subrange(
            binary,
            8,
            RECORD_BINARY_LENGTH,
        ));
        proof {
            assert(binary@.subrange(8, RECORD_BINARY_LENGTH as int).subrange(
                0,
                FEATURE_DESCRIPTION_LENGTH as int,
            ) =~= binary@.subrange(8, RECORD_BINARY_LENGTH as int));
        }
        Ok(UUIDDescriptionPair { uuid, description })
    }
}

} // verus!
