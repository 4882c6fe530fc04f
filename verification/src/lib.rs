//! The core of a round-based deployment protocol on a shared ledger: the
//! addresses of its records, their byte layout, the deploy instruction, the
//! blocks still open for deposits, and the comparison of ledger snapshots
//! taken around a deploy.

pub mod address;
pub mod apply;
pub mod blocks;
pub mod bytes;
pub mod codec;
pub mod instruction;
pub mod state;
pub mod transition;

pub use address::{
    board_pda, config_pda, derive_address, derive_record, miner_pda, round_pda, treasury_pda,
    DerivationError, RecordKind, ORE_PROGRAM_ID,
};
pub use apply::{apply_deploy, total_deployment};
pub use blocks::{decode_mask, encode_mask, get_available_blocks, pack_squares, select_squares};
pub use codec::{
    encode_board, encode_config, encode_miner, encode_round, parse_board, parse_config,
    parse_miner, parse_round, DecodeError,
};
pub use instruction::{
    build_deploy_instruction, create_deploy_instruction, encode_deploy, encode_deploy_data,
    AccountMeta, DeployAddresses, EncodeError, Instruction,
};
pub use state::{Address, Board, Config, Miner, Round, BLOCK_COUNT, SUBUNITS_PER_UNIT};
pub use transition::{
    verify_deploy_transition, verify_deployment, verify_miner_state, Field, InvariantViolation,
};
