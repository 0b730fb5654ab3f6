//! Deployment: the code of a contract goes, as one buffer, into the table
//! of contracts.

use crate::error::UpdateError;
use crate::felt::Felt;
use crate::felt_map::{extends, lemma_extends, lemma_submap};
use crate::tables::Contracts;
use crate::types::{CodeHash, ContractRecord, DeployedContract};
use vstd::prelude::*;

verus! {

/// The bytes of a sequence of 32-byte words, one word after the other.
pub open spec fn flatten_spec(words: Seq<[u8; 32]>) -> Seq<u8> {
    Seq::new(32 * words.len(), |i: int| words[i / 32]@[i % 32])
}

/// Joins the 32-byte words of a contract's code into one buffer.
pub fn flatten(words: &Vec<[u8; 32]>) -> (bytes: Vec<u8>)
    ensures
        bytes@ == flatten_spec(words@),
{
    let mut bytes: Vec<u8> = Vec::new();
    let mut i: usize = 0;
    while i < words.len()
        invariant
            i <= words@.len(),
            bytes@.len() == 32 * i,
            forall|k: int| 0 <= k < bytes@.len() ==> bytes@[k] == words@[k / 32]@[k % 32],
        decreases words@.len() - i,
    {
        let mut j: usize = 0;
        while j < 32
            invariant
                i < words@.len(),
                j <= 32,
                bytes@.len() == 32 * i + j,
                forall|k: int| 0 <= k < bytes@.len() ==> bytes@[k] == words@[k / 32]@[k % 32],
            decreases 32 - j,
        {
            bytes.push(words[i][j]);
            j += 1;
        }
        i += 1;
    }
    proof {
        assert(bytes@ =~= flatten_spec(words@));
    }
    bytes
}

/// What stands for a contract's ABI until the sequencer supplies one: the
/// ASCII text `todo`.
pub open spec fn abi_placeholder_spec() -> Seq<u8> {
    seq![0x74u8, 0x6f, 0x64, 0x6f]
}

/// What stands for a contract's definition until the sequencer supplies
/// one: the ASCII text `does not exist`.
pub open spec fn definition_placeholder_spec() -> Seq<u8> {
    seq![
        0x64u8,
        0x6f,
        0x65,
        0x73,
        0x20,
        0x6e,
        0x6f,
        0x74,
        0x20,
        0x65,
        0x78,
        0x69,
        0x73,
        0x74,
    ]
}

/// The placeholder for a contract's ABI.
pub fn abi_placeholder() -> (bytes: Vec<u8>)
    ensures
        bytes@ == abi_placeholder_spec(),
{
    let mut bytes: Vec<u8> = Vec::new();
    bytes.push(0x74);
    bytes.push(0x6f);
    bytes.push(0x64);
    bytes.push(0x6f);
    proof {
        assert(bytes@ =~= abi_placeholder_spec());
    }
    bytes
}

/// The placeholder for a contract's definition.
pub fn definition_placeholder() -> (bytes: Vec<u8>)
    ensures
        bytes@ == definition_placeholder_spec(),
{
    let mut bytes: Vec<u8> = Vec::new();
    bytes.push(0x64);
    bytes.push(0x6f);
    bytes.push(0x65);
    bytes.push(0x73);
    bytes.push(0x20);
    bytes.push(0x6e);
    bytes.push(0x6f);
    bytes.push(0x74);
    bytes.push(0x20);
    bytes.push(0x65);
    bytes.push(0x78);
    bytes.push(0x69);
    bytes.push(0x73);
    bytes.push(0x74);
    proof {
        assert(bytes@ =~= definition_placeholder_spec());
    }
    bytes
}

/// Whether two buffers hold the same bytes.
pub fn same_bytes(a: &Vec<u8>, b: &Vec<u8>) -> (same: bool)
    ensures
        same == (a@ == b@),
{
    if a.len() != b.len() {
        return false;
    }
    let mut i: usize = 0;
    while i < a.len()
        invariant
            i <= a@.len(),
            a@.len() == b@.len(),
            forall|k: int| 0 <= k < i ==> a@[k] == b@[k],
        decreases a@.len() - i,
    {
        if a[i] != b[i] {
            return false;
        }
        i += 1;
    }
    proof {
        assert(a@ =~= b@);
    }
    true
}

/// Whether a stored contract is the one that deploying `contract` with
/// `code` would store.
pub open spec fn same_deployment(
    held: ContractRecord,
    contract: DeployedContract,
    code: Seq<[u8; 32]>,
) -> bool {
    &&& held.code_hash == contract.hash
    &&& held.bytecode@ == flatten_spec(code)
    &&& held.abi@ == abi_placeholder_spec()
    &&& held.definition@ == definition_placeholder_spec()
}

/// Inserts a newly deployed contract, with the code that the sequencer
/// gave for it, into the table of contracts. Deploying again what is
/// deployed changes nothing; an address that is deployed with anything
/// else is refused.
pub fn deploy_contract(
    contracts: &mut Contracts,
    contract: DeployedContract,
    code: &Vec<[u8; 32]>,
) -> (res: Result<(), UpdateError>)
    ensures
        res == if old(contracts)@.contains_key(contract.address) && !same_deployment(
            old(contracts)@[contract.address],
            contract,
            code@,
        ) {
            Err::<(), UpdateError>(UpdateError::ContractMismatch)
        } else {
            Ok::<(), UpdateError>(())
        },
        old(contracts)@.contains_key(contract.address) ==> final(contracts).log() == old(contracts).log(),
        !old(contracts)@.contains_key(contract.address) ==> {
            &&& final(contracts).log().len() == old(contracts).log().len() + 1
            &&& final(contracts).log().drop_last() == old(contracts).log()
            &&& final(contracts).log().last().0 == contract.address
            &&& same_deployment(final(contracts).log().last().1, contract, code@)
        },
{
    let bytecode: Vec<u8> = flatten(code);
    let abi: Vec<u8> = abi_placeholder();
    let definition: Vec<u8> = definition_placeholder();
    match contracts.get(contract.address) {
        Some(held) => {
            if held.code_hash == contract.hash && same_bytes(&held.bytecode, &bytecode)
                && same_bytes(&held.abi, &abi) && same_bytes(&held.definition, &definition) {
                Ok(())
            } else {
                Err(UpdateError::ContractMismatch)
            }
        },
        None => {
            let stored = contracts.insert(contract.address, contract.hash, bytecode, abi, definition);
            proof {
                assert(contracts.log().drop_last() =~= old(contracts).log());
            }
            Ok(())
        },
    }
}

/// The code hash of every deployed contract.
pub open spec fn code_hashes(contracts: Map<Felt, ContractRecord>) -> Map<Felt, CodeHash> {
    Map::new(|address: Felt| contracts.contains_key(address), |address: Felt| contracts[address].code_hash)
}

/// What the table of contracts holds after the deployments of a state
/// update: what it held, and each deployed contract with its code.
pub open spec fn deployed_all(
    before: Map<Felt, ContractRecord>,
    after: Map<Felt, ContractRecord>,
    deployed: Seq<DeployedContract>,
    codes: Seq<Vec<[u8; 32]>>,
) -> bool {
    &&& before.submap_of(after)
    &&& deployed.len() <= codes.len()
    &&& forall|i: int|
        0 <= i < deployed.len() ==> after.contains_key((#[trigger] deployed[i]).address)
            && same_deployment(after[deployed[i].address], deployed[i], codes[i]@)
    &&& forall|address: Felt| #[trigger]
        after.contains_key(address) ==> before.contains_key(address) || (exists|i: int|
            0 <= i < deployed.len() && (#[trigger] deployed[i]).address == address)
}

/// Whether the deployment at position `at` meets its address deployed with
/// something else: in the table as it was, or by an earlier deployment.
pub open spec fn deployment_clashes(
    held: Map<Felt, ContractRecord>,
    deployed: Seq<DeployedContract>,
    codes: Seq<Vec<[u8; 32]>>,
    at: int,
) -> bool {
    let contract = deployed[at];
    if held.contains_key(contract.address) {
        !same_deployment(held[contract.address], contract, codes[at]@)
    } else {
        exists|k: int|
            0 <= k < at && (#[trigger] deployed[k]).address == contract.address && !(
            deployed[k].hash == contract.hash && flatten_spec(codes[k]@) == flatten_spec(
                codes[at]@,
            ))
    }
}

/// What deploying the first `upto` contracts answers: the first failure,
/// which is a contract without code or one whose address is deployed with
/// something else.
pub open spec fn deploy_outcome(
    held: Map<Felt, ContractRecord>,
    deployed: Seq<DeployedContract>,
    codes: Seq<Vec<[u8; 32]>>,
    upto: nat,
) -> Result<(), UpdateError>
    decreases upto,
{
    if upto == 0 {
        Ok(())
    } else {
        match deploy_outcome(held, deployed, codes, (upto - 1) as nat) {
            Err(e) => Err(e),
            Ok(_) => if upto - 1 >= codes.len() {
                Err(UpdateError::CodeMissing)
            } else if deployment_clashes(held, deployed, codes, upto - 1) {
                Err(UpdateError::ContractMismatch)
            } else {
                Ok(())
            },
        }
    }
}

/// A failure among the first deployments is the outcome of any more.
pub proof fn lemma_deploy_outcome_sticks(
    held: Map<Felt, ContractRecord>,
    deployed: Seq<DeployedContract>,
    codes: Seq<Vec<[u8; 32]>>,
    failed: nat,
    upto: nat,
)
    requires
        failed <= upto,
        deploy_outcome(held, deployed, codes, failed) is Err,
    ensures
        deploy_outcome(held, deployed, codes, upto) == deploy_outcome(held, deployed, codes, failed),
    decreases upto,
{
    if failed < upto {
        lemma_deploy_outcome_sticks(held, deployed, codes, failed, (upto - 1) as nat);
    }
}

/// The code hashes of the deployed contracts after more deployments: an
/// address that is deployed keeps its code hash.
pub open spec fn deployed_code_hashes(
    held: Map<Felt, CodeHash>,
    deployed: Seq<DeployedContract>,
) -> Map<Felt, CodeHash>
    decreases deployed.len(),
{
    if deployed.len() == 0 {
        held
    } else {
        let before = deployed_code_hashes(held, deployed.drop_last());
        if before.contains_key(deployed.last().address) {
            before
        } else {
            before.insert(deployed.last().address, deployed.last().hash)
        }
    }
}

/// Deploys contracts in order, each with the code at the same position of
/// `codes`.
pub fn deploy_contracts(
    contracts: &mut Contracts,
    deployed: &Vec<DeployedContract>,
    codes: &Vec<Vec<[u8; 32]>>,
) -> (res: Result<(), UpdateError>)
    ensures
        extends(final(contracts).log(), old(contracts).log()),
        old(contracts)@.submap_of(final(contracts)@),
        forall|address: Felt| #[trigger]
            final(contracts)@.contains_key(address) ==> old(contracts)@.contains_key(address) || (
            exists|i: int| 0 <= i < deployed@.len() && (#[trigger] deployed@[i]).address == address),
        res == deploy_outcome(old(contracts)@, deployed@, codes@, deployed@.len()),
        res matches Err(e) ==> e == UpdateError::CodeMissing || e == UpdateError::ContractMismatch,
        res is Ok ==> code_hashes(final(contracts)@) == deployed_code_hashes(
            code_hashes(old(contracts)@),
            deployed@,
        ),
        res is Ok ==> deployed@.len() <= codes@.len() && forall|i: int|
            0 <= i < deployed@.len() ==> final(contracts)@.contains_key(
                (#[trigger] deployed@[i]).address,
            ) && same_deployment(final(contracts)@[deployed@[i].address], deployed@[i], codes@[i]@),
{
    proof {
        assert(contracts.log().take(contracts.log().len() as int) =~= contracts.log());
    }
    let mut i: usize = 0;
    while i < deployed.len()
        invariant
            i <= deployed@.len(),
            extends(contracts.log(), old(contracts).log()),
            old(contracts)@.submap_of(contracts@),
            forall|address: Felt| #[trigger]
                contracts@.contains_key(address) ==> old(contracts)@.contains_key(address) || (
                exists|k: int| 0 <= k < i && (#[trigger] deployed@[k]).address == address),
            i <= codes@.len(),
            forall|k: int|
                0 <= k < i ==> contracts@.contains_key((#[trigger] deployed@[k]).address)
                    && same_deployment(contracts@[deployed@[k].address], deployed@[k], codes@[k]@),
            deploy_outcome(old(contracts)@, deployed@, codes@, i as nat) is Ok,
            code_hashes(contracts@) == deployed_code_hashes(
                code_hashes(old(contracts)@),
                deployed@.take(i as int),
            ),
        decreases deployed@.len() - i,
    {
        if i >= codes.len() {
            proof {
                lemma_deploy_outcome_sticks(
                    old(contracts)@,
                    deployed@,
                    codes@,
                    (i + 1) as nat,
                    deployed@.len(),
                );
            }
            return Err(UpdateError::CodeMissing);
        }
        let ghost before = *contracts;
        let contract: DeployedContract = deployed[i];
        proof {
            let a = contract.address;
            assert(deployed@.take(i + 1).drop_last() =~= deployed@.take(i as int));
            assert(deployed@.take(i + 1).last() == contract);
            if old(contracts)@.contains_key(a) {
                assert(old(contracts)@.dom().contains(a));
            } else if before@.contains_key(a) {
                let k = choose|k: int| 0 <= k < i && (#[trigger] deployed@[k]).address == a;
                assert(same_deployment(before@[a], deployed@[k], codes@[k]@));
                if deployment_clashes(old(contracts)@, deployed@, codes@, i as int) {
                    let w = choose|w: int|
                        0 <= w < i && (#[trigger] deployed@[w]).address == a && !(deployed@[w].hash
                            == contract.hash && flatten_spec(codes@[w]@) == flatten_spec(
                            codes@[i as int]@,
                        ));
                    assert(same_deployment(before@[a], deployed@[w], codes@[w]@));
                }
            }
            assert(deployment_clashes(old(contracts)@, deployed@, codes@, i as int) == (
            before@.contains_key(a) && !same_deployment(before@[a], contract, codes@[i as int]@)));
        }
        match deploy_contract(contracts, contract, &codes[i]) {
            Ok(()) => {},
            Err(e) => {
                proof {
                    lemma_deploy_outcome_sticks(
                        old(contracts)@,
                        deployed@,
                        codes@,
                        (i + 1) as nat,
                        deployed@.len(),
                    );
                }
                return Err(e);
            },
        }
        proof {
            if !before@.contains_key(contract.address) {
                assert(contracts.log().drop_last() == before.log());
                assert(code_hashes(contracts@) =~= code_hashes(before@).insert(
                    contract.address,
                    contract.hash,
                ));
            }
            assert(contracts.log().take(before.log().len() as int) =~= before.log());
            lemma_extends(contracts.log(), before.log(), old(contracts).log());
            if !before@.contains_key(contract.address) {
                assert(contracts@ == before@.insert(contract.address, contracts.log().last().1));
            }
            lemma_submap(old(contracts)@, before@, contracts@);
            assert forall|address: Felt| #[trigger]
                contracts@.contains_key(address) implies old(contracts)@.contains_key(address) || (
            exists|k: int| 0 <= k < i + 1 && (#[trigger] deployed@[k]).address == address) by {
                if address == contract.address {
                    assert(deployed@[i as int].address == address);
                } else {
                    assert(before@.contains_key(address));
                }
            }
            assert forall|k: int| 0 <= k < i + 1 implies contracts@.contains_key(
                (#[trigger] deployed@[k]).address,
            ) && same_deployment(contracts@[deployed@[k].address], deployed@[k], codes@[k]@) by {
                if k < i {
                    assert(before@.dom().contains(deployed@[k].address));
                }
            }
        }
        i += 1;
    }
    proof {
        assert(deployed@.take(i as int) =~= deployed@);
    }
    Ok(())
}

} // verus!
