//! Reading the key of a recipient from the base 58 text that users pass around.

use crate::crypto::keys::PublicKey;
use group::GroupEncoding;
use vstd::prelude::*;

verus! {

/// What `bs58::decode` with the Bitcoin alphabet makes of a text: the bytes that
/// it stands for, or nothing where the text is not base 58.
pub uninterp spec fn base58_bytes(text: Seq<char>) -> Option<Seq<u8>>;

/// Whether 32 bytes are the encoding of a point of the prime-order subgroup of
/// Jubjub: what `jubjub::SubgroupPoint::from_bytes` accepts.
pub uninterp spec fn encodes_subgroup_point(bytes: Seq<u8>) -> bool;

/// The error of `bs58::decode`: it is handed on to the caller of the decoding,
/// who reads nothing in it.
#[verifier::external_type_specification]
#[verifier::external_body]
pub struct ExBase58Error(bs58::decode::Error);

/// Calls `bs58::decode(..).into_vec()`: the bytes that a base 58 text stands for, in
/// the Bitcoin alphabet and without a checksum. The outcome is a function of the
/// text alone; a character outside the alphabet gives an error.
#[verifier::external_body]
fn base58_to_vec(text: &str) -> (r: Result<Vec<u8>, bs58::decode::Error>)
    ensures
        match r {
            Ok(bytes) => base58_bytes(text@) == Some(bytes@),
            Err(_) => base58_bytes(text@) is None,
        },
{
    bs58::decode(text).into_vec()
}

/// Calls `jubjub::SubgroupPoint::from_bytes` and tells whether it gave a point:
/// whether the bytes are the canonical encoding of a point of the curve that lies
/// in the prime-order subgroup.
#[verifier::external_body]
fn decodes_to_subgroup_point(bytes: &[u8; 32]) -> (r: bool)
    ensures
        r == encodes_subgroup_point(bytes@),
{
    jubjub::SubgroupPoint::from_bytes(bytes).is_some().into()
}

/// Why a text is not the key of a recipient.
#[derive(Debug, Clone, Copy, PartialEq, Eq, Structural)]
pub enum AddressError {
    /// The text is not base 58.
    NotBase58,
    /// The text stands for more or fewer than 32 bytes.
    WrongLength,
    /// The 32 bytes are not the encoding of a point of the subgroup.
    NotAPoint,
}

/// What `bytes`, taken as the encoding of a key, give, `is_point` telling whether
/// they encode a point of the subgroup.
pub open spec fn key_of_bytes(bytes: Seq<u8>, is_point: bool) -> Result<Seq<u8>, AddressError> {
    if bytes.len() != 32 {
        Err(AddressError::WrongLength)
    } else if !is_point {
        Err(AddressError::NotAPoint)
    } else {
        Ok(bytes)
    }
}

/// What a text gives as the key of a recipient.
pub open spec fn key_of_text(text: Seq<char>) -> Result<Seq<u8>, AddressError> {
    match base58_bytes(text) {
        Some(bytes) => key_of_bytes(bytes, encodes_subgroup_point(bytes)),
        None => Err(AddressError::NotBase58),
    }
}

/// Whether `r` is the key, or the refusal, that `wanted` says.
pub open spec fn is_key_result(r: Result<PublicKey, AddressError>, wanted: Result<Seq<u8>, AddressError>) -> bool {
    match r {
        Ok(key) => wanted == Ok::<Seq<u8>, AddressError>(key@),
        Err(e) => wanted == Err::<Seq<u8>, AddressError>(e),
    }
}

/// The key that 32 bytes are, if they encode a point of the subgroup.
pub fn public_key_from_bytes(bytes: &Vec<u8>) -> (r: Result<PublicKey, AddressError>)
    ensures
        is_key_result(r, key_of_bytes(bytes@, encodes_subgroup_point(bytes@))),
{
    if bytes.len() != 32 {
        return Err(AddressError::WrongLength);
    }
    let mut repr = [0u8;32];
    let mut i: usize = 0;
    while i < 32
        invariant
            bytes.len() == 32,
            forall|j: int| 0 <= j < i ==> repr@[j] == bytes@[j],
        decreases 32 - i,
    {
        repr[i] = bytes[i];
        i = i + 1;
    }
    assert(repr@ =~= bytes@);
    if decodes_to_subgroup_point(&repr) {
        Ok(PublicKey { repr })
    } else {
        Err(AddressError::NotAPoint)
    }
}

/// The key of a recipient, read from base 58.
pub fn decode_public_key(text: &str) -> (r: Result<PublicKey, AddressError>)
    ensures
        is_key_result(r, key_of_text(text@)),
{
    match base58_to_vec(text) {
        Ok(bytes) => public_key_from_bytes(&bytes),
        Err(_) => Err(AddressError::NotBase58),
    }
}

} // verus!
