//! The Pedersen hash of two field elements and the contract state hash built
//! from it.

use crate::felt::{be_value, felt_of, modulus, Felt};
use crate::types::{CodeHash, ContractStateHash, StorageRoot};
use vstd::prelude::*;

verus! {

/// The 32-byte big-endian digest that the StarkNet Pedersen hash gives for
/// two 32-byte big-endian inputs.
pub uninterp spec fn pedersen_digest(a: Seq<u8>, b: Seq<u8>) -> Seq<u8>;

/// Calls `starknet_crypto::pedersen_hash` on the two elements that
/// `starknet_crypto::Felt::from_bytes_be` reads from `a` and `b`, and encodes
/// the result with `Felt::to_bytes_be`.
///
/// Nothing here is proved. The contract claims that the digest depends on the
/// two inputs alone, and that it is the canonical encoding of a field element,
/// which `to_bytes_be` gives by leaving Montgomery form.
#[verifier::external_body]
fn pedersen_bytes(a: &[u8; 32], b: &[u8; 32]) -> (digest: [u8; 32])
    ensures
        digest@ == pedersen_digest(a@, b@),
        be_value(digest@) < modulus(),
{
    let x = starknet_crypto::Felt::from_bytes_be(a);
    let y = starknet_crypto::Felt::from_bytes_be(b);
    starknet_crypto::pedersen_hash(&x, &y).to_bytes_be()
}

/// The Pedersen hash as a function on field elements.
pub open spec fn pedersen_spec(a: Felt, b: Felt) -> Felt {
    Felt::decode(pedersen_digest(a.encode(), b.encode()))
}

/// The Pedersen hash of `a` and `b`.
pub fn pedersen_hash(a: Felt, b: Felt) -> (h: Felt)
    ensures
        h == pedersen_spec(a, b),
{
    let digest: [u8; 32] = pedersen_bytes(&a.to_be_bytes(), &b.to_be_bytes());
    match Felt::from_be_bytes(digest) {
        Ok(h) => h,
        // The digest is canonical, so this arm is never taken.
        Err(_) => Felt::zero(),
    }
}

/// `H(H(H(code_hash, storage_root), 0), 0)`: the two zeros stand for a
/// reserved field and the contract version.
pub open spec fn contract_state_hash_spec(code_hash: CodeHash, storage_root: StorageRoot) -> Felt {
    pedersen_spec(pedersen_spec(pedersen_spec(code_hash, storage_root), felt_of(0)), felt_of(0))
}

/// Calculates the contract state hash from its preimage.
pub fn calculate_contract_state_hash(code_hash: CodeHash, storage_root: StorageRoot) -> (hash:
    ContractStateHash)
    ensures
        hash == contract_state_hash_spec(code_hash, storage_root),
{
    let reserved: Felt = Felt::zero();
    let contract_version: Felt = Felt::zero();
    let hash: Felt = pedersen_hash(code_hash, storage_root);
    let hash: Felt = pedersen_hash(hash, reserved);
    pedersen_hash(hash, contract_version)
}

} // verus!
