//! The deploy instruction: what a deploy request looks like on the wire.
//!
//! The data of the instruction is one discriminant byte, the amount and the
//! round identifier in eight bytes each and the block mask in four bytes, all
//! least significant byte first. Its accounts are seven, in a fixed order
//! that the executor reads by position.

use vstd::prelude::*;
use crate::address::{
    board_pda, config_pda, derived, kind_seeds, miner_pda, round_pda, treasury_pda,
    DerivationError, RecordKind, ORE_PROGRAM_ID,
};
use crate::blocks::{block_mask, encode_mask};
use crate::bytes::{le_bytes, lemma_le_bytes_len, put_le};
use crate::state::Address;

verus! {

/// Discriminant byte of the deploy operation.
pub const DEPLOY_DISCRIMINANT: u8 = 6;

/// Number of bytes of a deploy instruction's data.
pub const DEPLOY_DATA_LEN: usize = 21;

/// Number of accounts of a deploy instruction.
pub const DEPLOY_ACCOUNTS: usize = 7;

/// One account of an instruction, with what the instruction may do to it.
#[derive(Clone, Copy, Debug, PartialEq, Eq)]
pub struct AccountMeta {
    /// The account's address.
    pub pubkey: Address,
    /// The account signs the transaction.
    pub is_signer: bool,
    /// The instruction may change the account.
    pub is_writable: bool,
}

/// An instruction for the ledger: the program addressed, the accounts it
/// works on and its data.
#[derive(Clone, Debug, PartialEq, Eq)]
pub struct Instruction {
    /// Identifier of the program that executes the instruction.
    pub program_id: Address,
    /// The accounts, in the order the program expects.
    pub accounts: Vec<AccountMeta>,
    /// The operation and its arguments.
    pub data: Vec<u8>,
}

/// Why no deploy instruction was built.
#[derive(Clone, Copy, Debug, PartialEq, Eq)]
pub enum EncodeError {
    /// The amount is zero: the deploy would change nothing.
    ZeroAmount,
    /// No block is listed.
    NoBlocks,
    /// An address of the instruction could not be derived.
    Derivation(DerivationError),
}

/// The derived addresses of a deploy instruction.
#[derive(Clone, Copy, Debug, PartialEq, Eq)]
pub struct DeployAddresses {
    /// The miner record of the authority.
    pub miner: Address,
    /// The record of the targeted round.
    pub round: Address,
    /// The board record.
    pub board: Address,
    /// The treasury record.
    pub treasury: Address,
    /// The config record.
    pub config: Address,
}

/// An account the instruction may change.
pub open spec fn writable(pubkey: Address, is_signer: bool) -> AccountMeta {
    AccountMeta { pubkey, is_signer, is_writable: true }
}

/// An account the instruction only reads.
pub open spec fn readonly(pubkey: Address) -> AccountMeta {
    AccountMeta { pubkey, is_signer: false, is_writable: false }
}

/// The data of a deploy of `amount` to the blocks of `mask` in round
/// `round_id`.
pub open spec fn deploy_data(amount: u64, round_id: u64, mask: u32) -> Seq<u8> {
    seq![DEPLOY_DISCRIMINANT] + le_bytes(amount as nat, 8) + le_bytes(round_id as nat, 8)
        + le_bytes(mask as nat, 4)
}

/// The accounts of a deploy: the signer, the authority, then the miner,
/// round, board, treasury and config records. Only the signer signs; only
/// the config is read without being changed.
pub open spec fn deploy_accounts(
    signer: Address,
    authority: Address,
    at: DeployAddresses,
) -> Seq<AccountMeta> {
    seq![
        writable(signer, true),
        writable(authority, false),
        writable(at.miner, false),
        writable(at.round, false),
        writable(at.board, false),
        writable(at.treasury, false),
        readonly(at.config),
    ]
}

/// `ix` is the deploy instruction of the given request and addresses.
pub open spec fn is_deploy_instruction(
    ix: Instruction,
    program_id: Address,
    signer: Address,
    authority: Address,
    amount: u64,
    round_id: u64,
    blocks: Seq<usize>,
    at: DeployAddresses,
) -> bool {
    &&& ix.program_id == program_id
    &&& ix.accounts@ == deploy_accounts(signer, authority, at)
    &&& ix.data@ == deploy_data(amount, round_id, block_mask(blocks))
}

/// What building a deploy instruction from a request and its derived
/// addresses returns: a request without amount or without blocks is refused,
/// in that order, and every other request is encoded.
pub open spec fn built_deploy(
    r: Result<Instruction, EncodeError>,
    program_id: Address,
    signer: Address,
    authority: Address,
    amount: u64,
    round_id: u64,
    blocks: Seq<usize>,
    at: DeployAddresses,
) -> bool {
    if amount == 0 {
        r == Err::<Instruction, EncodeError>(EncodeError::ZeroAmount)
    } else if blocks.len() == 0 {
        r == Err::<Instruction, EncodeError>(EncodeError::NoBlocks)
    } else {
        r matches Ok(ix) && is_deploy_instruction(
            ix,
            program_id,
            signer,
            authority,
            amount,
            round_id,
            blocks,
            at,
        )
    }
}

/// The error of a derivation, if it failed.
pub open spec fn failure(r: Result<(Address, u8), DerivationError>) -> Option<DerivationError> {
    match r {
        Ok(_) => None,
        Err(e) => Some(e),
    }
}

/// What deriving the record of a kind under `program_id` returns.
pub open spec fn derived_record(program_id: Address, kind: RecordKind) -> Result<
    (Address, u8),
    DerivationError,
> {
    derived(kind_seeds(kind), program_id)
}

/// The first derivation among those of a deploy that fails, in the order
/// miner, round, board, treasury, config.
pub open spec fn deploy_derivation_error(
    program_id: Address,
    authority: Address,
    round_id: u64,
) -> Option<DerivationError> {
    if failure(derived_record(program_id, RecordKind::Miner { authority })) is Some {
        failure(derived_record(program_id, RecordKind::Miner { authority }))
    } else if failure(derived_record(program_id, RecordKind::Round { id: round_id })) is Some {
        failure(derived_record(program_id, RecordKind::Round { id: round_id }))
    } else if failure(derived_record(program_id, RecordKind::Board)) is Some {
        failure(derived_record(program_id, RecordKind::Board))
    } else if failure(derived_record(program_id, RecordKind::Treasury)) is Some {
        failure(derived_record(program_id, RecordKind::Treasury))
    } else {
        failure(derived_record(program_id, RecordKind::Config))
    }
}

/// The addresses of a deploy, where all of them can be derived.
pub open spec fn deploy_addresses(
    program_id: Address,
    authority: Address,
    round_id: u64,
) -> DeployAddresses {
    DeployAddresses {
        miner: derived_record(program_id, RecordKind::Miner { authority })->Ok_0.0,
        round: derived_record(program_id, RecordKind::Round { id: round_id })->Ok_0.0,
        board: derived_record(program_id, RecordKind::Board)->Ok_0.0,
        treasury: derived_record(program_id, RecordKind::Treasury)->Ok_0.0,
        config: derived_record(program_id, RecordKind::Config)->Ok_0.0,
    }
}

/// What encoding a deploy request returns: a request without amount or
/// without blocks is refused, in that order; then a failed derivation is
/// reported; every other request is encoded with its derived addresses.
pub open spec fn encoded_deploy(
    r: Result<Instruction, EncodeError>,
    program_id: Address,
    signer: Address,
    authority: Address,
    amount: u64,
    round_id: u64,
    blocks: Seq<usize>,
) -> bool {
    if amount == 0 {
        r == Err::<Instruction, EncodeError>(EncodeError::ZeroAmount)
    } else if blocks.len() == 0 {
        r == Err::<Instruction, EncodeError>(EncodeError::NoBlocks)
    } else {
        match deploy_derivation_error(program_id, authority, round_id) {
            Some(e) => r == Err::<Instruction, EncodeError>(EncodeError::Derivation(e)),
            None => r matches Ok(ix) && is_deploy_instruction(
                ix,
                program_id,
                signer,
                authority,
                amount,
                round_id,
                blocks,
                deploy_addresses(program_id, authority, round_id),
            ),
        }
    }
}

/// The data of a deploy instruction.
pub fn encode_deploy_data(amount: u64, round_id: u64, mask: u32) -> (data: Vec<u8>)
    ensures
        data@ == deploy_data(amount, round_id, mask),
        data@.len() == DEPLOY_DATA_LEN,
{
    let mut data: Vec<u8> = Vec::new();
    data.push(DEPLOY_DISCRIMINANT);
    put_le(&mut data, amount, 8);
    put_le(&mut data, round_id, 8);
    put_le(&mut data, mask as u64, 4);
    proof {
        lemma_le_bytes_len(amount as nat, 8);
        lemma_le_bytes_len(round_id as nat, 8);
        lemma_le_bytes_len(mask as nat, 4);
        assert(data@ =~= deploy_data(amount, round_id, mask));
    }
    data
}

/// Builds the deploy instruction of a request whose addresses are derived
/// already.
pub fn build_deploy_instruction(
    program_id: &Address,
    signer: Address,
    authority: Address,
    amount: u64,
    round_id: u64,
    blocks: &[usize],
    at: &DeployAddresses,
) -> (r: Result<Instruction, EncodeError>)
    ensures
        built_deploy(r, *program_id, signer, authority, amount, round_id, blocks@, *at),
{
    if amount == 0 {
        return Err(EncodeError::ZeroAmount);
    }
    if blocks.len() == 0 {
        return Err(EncodeError::NoBlocks);
    }
    let mask = encode_mask(blocks);
    let data = encode_deploy_data(amount, round_id, mask);
    let mut accounts: Vec<AccountMeta> = Vec::new();
    accounts.push(AccountMeta { pubkey: signer, is_signer: true, is_writable: true });
    accounts.push(AccountMeta { pubkey: authority, is_signer: false, is_writable: true });
    accounts.push(AccountMeta { pubkey: at.miner, is_signer: false, is_writable: true });
    accounts.push(AccountMeta { pubkey: at.round, is_signer: false, is_writable: true });
    accounts.push(AccountMeta { pubkey: at.board, is_signer: false, is_writable: true });
    accounts.push(AccountMeta { pubkey: at.treasury, is_signer: false, is_writable: true });
    accounts.push(AccountMeta { pubkey: at.config, is_signer: false, is_writable: false });
    proof {
        assert(accounts@ =~= deploy_accounts(signer, authority, *at));
    }
    Ok(Instruction { program_id: *program_id, accounts, data })
}

/// Encodes a deploy request for the program `program_id`: derives the
/// addresses of the records involved and builds the instruction.
pub fn encode_deploy(
    program_id: &Address,
    signer: Address,
    authority: Address,
    amount: u64,
    round_id: u64,
    blocks: &[usize],
) -> (r: Result<Instruction, EncodeError>)
    ensures
        encoded_deploy(r, *program_id, signer, authority, amount, round_id, blocks@),
{
    if amount == 0 {
        return Err(EncodeError::ZeroAmount);
    }
    if blocks.len() == 0 {
        return Err(EncodeError::NoBlocks);
    }
    let miner = match miner_pda(program_id, &authority) {
        Ok(found) => found.0,
        Err(e) => {
            return Err(EncodeError::Derivation(e));
        },
    };
    let round = match round_pda(program_id, round_id) {
        Ok(found) => found.0,
        Err(e) => {
            return Err(EncodeError::Derivation(e));
        },
    };
    let board = match board_pda(program_id) {
        Ok(found) => found.0,
        Err(e) => {
            return Err(EncodeError::Derivation(e));
        },
    };
    let treasury = match treasury_pda(program_id) {
        Ok(found) => found.0,
        Err(e) => {
            return Err(EncodeError::Derivation(e));
        },
    };
    let config = match config_pda(program_id) {
        Ok(found) => found.0,
        Err(e) => {
            return Err(EncodeError::Derivation(e));
        },
    };
    let at = DeployAddresses { miner, round, board, treasury, config };
    build_deploy_instruction(program_id, signer, authority, amount, round_id, blocks, &at)
}

/// Encodes a deploy request for the deployed protocol program.
pub fn create_deploy_instruction(
    signer: Address,
    authority: Address,
    amount: u64,
    round_id: u64,
    blocks: &[usize],
) -> (r: Result<Instruction, EncodeError>)
    ensures
        encoded_deploy(r, ORE_PROGRAM_ID, signer, authority, amount, round_id, blocks@),
{
    let program_id: Address = ORE_PROGRAM_ID;
    encode_deploy(&program_id, signer, authority, amount, round_id, blocks)
}

/// A deploy instruction that was built has exactly seven accounts, the
/// signer first and the authority second, and 21 bytes of data that start
/// with the deploy discriminant.
pub proof fn lemma_deploy_instruction_shape(
    ix: Instruction,
    program_id: Address,
    signer: Address,
    authority: Address,
    amount: u64,
    round_id: u64,
    blocks: Seq<usize>,
    at: DeployAddresses,
)
    requires
        is_deploy_instruction(ix, program_id, signer, authority, amount, round_id, blocks, at),
    ensures
        ix.accounts@.len() == DEPLOY_ACCOUNTS,
        ix.accounts@[0].pubkey == signer,
        ix.accounts@[1].pubkey == authority,
        ix.accounts@[2].pubkey == at.miner,
        ix.accounts@[3].pubkey == at.round,
        ix.accounts@[4].pubkey == at.board,
        ix.accounts@[5].pubkey == at.treasury,
        ix.accounts@[6].pubkey == at.config,
        ix.data@.len() == DEPLOY_DATA_LEN,
        ix.data@[0] == DEPLOY_DISCRIMINANT,
{
    lemma_le_bytes_len(amount as nat, 8);
    lemma_le_bytes_len(round_id as nat, 8);
    lemma_le_bytes_len(block_mask(blocks) as nat, 4);
}

/// A request with a positive amount and at least one block is always built
/// into an instruction.
pub proof fn lemma_valid_request_is_built(
    r: Result<Instruction, EncodeError>,
    program_id: Address,
    signer: Address,
    authority: Address,
    amount: u64,
    round_id: u64,
    blocks: Seq<usize>,
    at: DeployAddresses,
)
    requires
        amount > 0,
        blocks.len() > 0,
        built_deploy(r, program_id, signer, authority, amount, round_id, blocks, at),
    ensures
        r is Ok,
        r->Ok_0.accounts@.len() == DEPLOY_ACCOUNTS,
        r->Ok_0.data@.len() > 0,
{
    lemma_deploy_instruction_shape(
        r->Ok_0,
        program_id,
        signer,
        authority,
        amount,
        round_id,
        blocks,
        at,
    );
}

} // verus!
