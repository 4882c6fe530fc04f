//! Derived addresses of the protocol's ledger records.
//!
//! Every record lives at an address computed from the program's identifier
//! and a list of seeds: the namespace of the record's kind, followed by what
//! tells records of that kind apart. The computation hashes the seeds with a
//! bump byte until the result is no valid curve point; the first bump that
//! works, counting down from 255, is returned with the address.

use vstd::prelude::*;
use crate::bytes::{be_bytes, put_be, put_bytes};
use crate::state::Address;

verus! {

/// Identifier of the deployed protocol program.
pub const ORE_PROGRAM_ID: [u8; 32] = [
    12, 0, 218, 56, 205, 148, 79, 95, 157, 57, 234, 175, 167, 180, 108, 229,
    43, 215, 237, 195, 185, 162, 118, 164, 114, 44, 46, 42, 174, 52, 137, 67,
];

/// Why an address could not be derived.
#[derive(Clone, Copy, Debug, PartialEq, Eq)]
pub enum DerivationError {
    /// No bump byte gives an address off the curve, or the seeds are longer
    /// than the derivation admits.
    NoViableBump,
}

/// Namespace of the board record: the bytes of `board`.
pub const BOARD: [u8; 5] = [98, 111, 97, 114, 100];

/// Namespace of the config record: the bytes of `config`.
pub const CONFIG: [u8; 6] = [99, 111, 110, 102, 105, 103];

/// Namespace of the treasury record: the bytes of `treasury`.
pub const TREASURY: [u8; 8] = [116, 114, 101, 97, 115, 117, 114, 121];

/// Namespace of the miner records: the bytes of `miner`.
pub const MINER: [u8; 5] = [109, 105, 110, 101, 114];

/// Namespace of the round records: the bytes of `round`.
pub const ROUND: [u8; 5] = [114, 111, 117, 110, 100];

/// The kinds of record that live at a derived address, each with what
/// tells its records apart.
#[derive(Clone, Copy, Debug, PartialEq, Eq)]
pub enum RecordKind {
    /// The one board record.
    Board,
    /// The one config record.
    Config,
    /// The one treasury record.
    Treasury,
    /// The miner record of an authority.
    Miner { authority: Address },
    /// The record of the round with an identifier.
    Round { id: u64 },
}

/// The seeds of a record: the namespace of its kind, then the authority's
/// address for a miner, or the round's identifier in eight bytes, most
/// significant first, for a round.
pub open spec fn kind_seeds(kind: RecordKind) -> Seq<Seq<u8>> {
    match kind {
        RecordKind::Board => seq![BOARD@],
        RecordKind::Config => seq![CONFIG@],
        RecordKind::Treasury => seq![TREASURY@],
        RecordKind::Miner { authority } => seq![MINER@, authority@],
        RecordKind::Round { id } => seq![ROUND@, be_bytes(id as nat, 8)],
    }
}

/// The seeds that a list of byte vectors holds.
pub open spec fn seeds_view(seeds: Seq<Vec<u8>>) -> Seq<Seq<u8>> {
    seeds.map_values(|s: Vec<u8>| s@)
}

/// The address and bump that the derivation finds for `seeds` under
/// `program_id`, if it finds any.
pub uninterp spec fn program_address(seeds: Seq<Seq<u8>>, program_id: [u8; 32]) -> Option<
    ([u8; 32], u8),
>;

/// Runs `solana_sdk::pubkey::Pubkey::try_find_program_address` on the seeds
/// and the program identifier, and hands back the address as its 32 bytes.
///
/// Trusted: the result is the one value that the derivation has for these
/// seeds and this program identifier. The derivation is a hash over its
/// arguments and a search over the bump byte; it reads nothing else, and it
/// answers `None` instead of failing.
#[verifier::external_body]
fn find_program_address(seeds: &Vec<Vec<u8>>, program_id: &[u8; 32]) -> (r: Option<([u8; 32], u8)>)
    ensures
        r == program_address(seeds_view(seeds@), *program_id),
{
    let parts: Vec<&[u8]> = seeds.iter().map(|s| s.as_slice()).collect();
    let program = solana_sdk::pubkey::Pubkey::new_from_array(*program_id);
    match solana_sdk::pubkey::Pubkey::try_find_program_address(&parts, &program) {
        Some((address, bump)) => Some((address.to_bytes(), bump)),
        None => None,
    }
}

/// What deriving from `seeds` under `program_id` returns.
pub open spec fn derived(seeds: Seq<Seq<u8>>, program_id: Address) -> Result<
    (Address, u8),
    DerivationError,
> {
    match program_address(seeds, program_id) {
        Some(found) => Ok(found),
        None => Err(DerivationError::NoViableBump),
    }
}

/// Derives the address and bump for a list of seeds under `program_id`.
pub fn derive_address(seeds: &Vec<Vec<u8>>, program_id: &Address) -> (r: Result<
    (Address, u8),
    DerivationError,
>)
    ensures
        r == derived(seeds_view(seeds@), *program_id),
{
    match find_program_address(seeds, program_id) {
        Some(found) => Ok(found),
        None => Err(DerivationError::NoViableBump),
    }
}

fn derive_from_tag(tag: &[u8], program_id: &Address) -> (r: Result<(Address, u8), DerivationError>)
    ensures
        r == derived(seq![tag@], *program_id),
{
    let mut first: Vec<u8> = Vec::new();
    put_bytes(&mut first, tag);
    let mut seeds: Vec<Vec<u8>> = Vec::new();
    seeds.push(first);
    proof {
        assert(first@ =~= tag@);
        assert(seeds_view(seeds@) =~= seq![tag@]);
    }
    derive_address(&seeds, program_id)
}

fn derive_from_pair(tag: &[u8], key: Vec<u8>, program_id: &Address) -> (r: Result<
    (Address, u8),
    DerivationError,
>)
    ensures
        r == derived(seq![tag@, key@], *program_id),
{
    let mut first: Vec<u8> = Vec::new();
    put_bytes(&mut first, tag);
    let mut seeds: Vec<Vec<u8>> = Vec::new();
    seeds.push(first);
    seeds.push(key);
    proof {
        assert(first@ =~= tag@);
        assert(seeds_view(seeds@) =~= seq![tag@, key@]);
    }
    derive_address(&seeds, program_id)
}

/// Derives the address and bump of the record of a kind under `program_id`.
pub fn derive_record(program_id: &Address, kind: &RecordKind) -> (r: Result<(Address, u8), DerivationError>)
    ensures
        r == derived(kind_seeds(*kind), *program_id),
{
    match kind {
        RecordKind::Board => derive_from_tag(BOARD.as_slice(), program_id),
        RecordKind::Config => derive_from_tag(CONFIG.as_slice(), program_id),
        RecordKind::Treasury => derive_from_tag(TREASURY.as_slice(), program_id),
        RecordKind::Miner { authority } => {
            let mut key: Vec<u8> = Vec::new();
            put_bytes(&mut key, authority.as_slice());
            proof {
                assert(key@ =~= authority@);
            }
            derive_from_pair(MINER.as_slice(), key, program_id)
        },
        RecordKind::Round { id } => {
            let mut key: Vec<u8> = Vec::new();
            put_be(&mut key, *id, 8);
            proof {
                assert(key@ =~= be_bytes(*id as nat, 8));
            }
            derive_from_pair(ROUND.as_slice(), key, program_id)
        },
    }
}

/// Address and bump of the board record.
pub fn board_pda(program_id: &Address) -> (r: Result<(Address, u8), DerivationError>)
    ensures
        r == derived(kind_seeds(RecordKind::Board), *program_id),
{
    derive_record(program_id, &RecordKind::Board)
}

/// Address and bump of the config record.
pub fn config_pda(program_id: &Address) -> (r: Result<(Address, u8), DerivationError>)
    ensures
        r == derived(kind_seeds(RecordKind::Config), *program_id),
{
    derive_record(program_id, &RecordKind::Config)
}

/// Address and bump of the treasury record.
pub fn treasury_pda(program_id: &Address) -> (r: Result<(Address, u8), DerivationError>)
    ensures
        r == derived(kind_seeds(RecordKind::Treasury), *program_id),
{
    derive_record(program_id, &RecordKind::Treasury)
}

/// Address and bump of the miner record of `authority`.
pub fn miner_pda(program_id: &Address, authority: &Address) -> (r: Result<
    (Address, u8),
    DerivationError,
>)
    ensures
        r == derived(kind_seeds(RecordKind::Miner { authority: *authority }), *program_id),
{
    derive_record(program_id, &RecordKind::Miner { authority: *authority })
}

/// Address and bump of the record of round `id`.
pub fn round_pda(program_id: &Address, id: u64) -> (r: Result<(Address, u8), DerivationError>)
    ensures
        r == derived(kind_seeds(RecordKind::Round { id }), *program_id),
{
    derive_record(program_id, &RecordKind::Round { id })
}

/// Deriving twice for the same kind of record under the same program
/// identifier gives the same address and the same bump.
pub proof fn lemma_derivation_deterministic(
    program_a: Address,
    kind_a: RecordKind,
    program_b: Address,
    kind_b: RecordKind,
)
    requires
        program_a == program_b,
        kind_a == kind_b,
    ensures
        derived(kind_seeds(kind_a), program_a) == derived(kind_seeds(kind_b), program_b),
{
}

} // verus!
