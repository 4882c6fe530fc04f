use anyhow::Result;
use ore_deploy::{
    board_pda, config_pda, create_deploy_instruction, decode_mask, encode_mask,
    get_available_blocks, miner_pda, round_pda, treasury_pda, verify_deployment,
    verify_miner_state, Instruction, Miner, Round, ORE_PROGRAM_ID, SUBUNITS_PER_UNIT,
};
use solana_sdk::{
    compute_budget::ComputeBudgetInstruction,
    instruction::AccountMeta as LedgerAccountMeta,
    instruction::Instruction as LedgerInstruction,
    native_token::LAMPORTS_PER_SOL,
    pubkey::Pubkey,
    signature::Keypair,
    signer::Signer,
};
use std::str::FromStr;

// Program ID
const ORE_PROGRAM: &str = "oreV3EG1i9BEgiAJ8b177Z2S2rMarzak4NMv1kULvWv";

/// The instruction as the ledger's own type.
fn to_ledger(ix: &Instruction) -> LedgerInstruction {
    LedgerInstruction {
        program_id: Pubkey::new_from_array(ix.program_id),
        accounts: ix
            .accounts
            .iter()
            .map(|meta| LedgerAccountMeta {
                pubkey: Pubkey::new_from_array(meta.pubkey),
                is_signer: meta.is_signer,
                is_writable: meta.is_writable,
            })
            .collect(),
        data: ix.data.clone(),
    }
}

/// The threshold in sub-units, truncated.
fn to_subunits(amount: f64) -> u64 {
    (amount * SUBUNITS_PER_UNIT as f64) as u64
}

#[test]
fn test_deployment_with_state_validation() -> Result<()> {
    let blocks_to_deploy = vec![2, 7, 12, 19];
    let amount_per_block = LAMPORTS_PER_SOL / 5; // 0.2 SOL

    let miner = Keypair::new();

    // Simulate initial round state
    let initial_round = Round {
        id: 1,
        deployed: [0; 25],
        slot_hash: [0; 32],
        count: [0; 25],
        expires_at: 1000,
        motherlode: 10 * LAMPORTS_PER_SOL,
        rent_payer: miner.pubkey().to_bytes(),
        top_miner: Pubkey::default().to_bytes(),
        top_miner_reward: 0,
        total_deployed: 0,
        total_vaulted: 0,
        total_winnings: 0,
    };

    // Create instruction
    let _deploy_ix = create_deploy_instruction(
        miner.pubkey().to_bytes(),
        miner.pubkey().to_bytes(),
        amount_per_block,
        initial_round.id,
        &blocks_to_deploy,
    )
    .expect("the request is valid");

    // Simulate post-deployment round state
    let mut post_round = initial_round;
    for &block in &blocks_to_deploy {
        post_round.deployed[block] += amount_per_block;
        post_round.count[block] += 1;
        post_round.total_deployed += amount_per_block;
    }

    // Verify deployment state changes
    assert_eq!(
        verify_deployment(&initial_round, &post_round, &blocks_to_deploy, amount_per_block),
        Ok(())
    );

    Ok(())
}

#[test]
fn test_multi_block_deployment() -> Result<()> {
    let test_cases = vec![
        (vec![0], "Single block"),
        (vec![0, 24], "Two corners"),
        (vec![0, 6, 12, 18, 24], "Five blocks (cross)"),
        (vec![1, 2, 3, 4, 5, 6, 7, 8, 9, 10], "Ten blocks"),
    ];

    for (blocks, description) in test_cases {
        let miner = Keypair::new();
        let amount = LAMPORTS_PER_SOL / 10;

        // Create instruction
        let ix = create_deploy_instruction(
            miner.pubkey().to_bytes(),
            miner.pubkey().to_bytes(),
            amount,
            0,
            &blocks,
        )
        .expect(description);

        // Verify instruction
        assert_eq!(ix.accounts.len(), 7, "Invalid instruction structure");
        assert!(!ix.data.is_empty(), "Empty instruction data");
    }

    Ok(())
}

#[test]
fn test_transaction_signing_flow() -> Result<()> {
    let miner = Keypair::new();
    let blocks = vec![5, 10, 15];
    let amount = LAMPORTS_PER_SOL / 10;
    let round_id = 42u64;

    // Create full transaction (like non-dry-run would)
    let deploy_ix = create_deploy_instruction(
        miner.pubkey().to_bytes(),
        miner.pubkey().to_bytes(),
        amount,
        round_id,
        &blocks,
    )
    .expect("the request is valid");

    // Add compute budget instructions (production flow)
    let compute_limit_ix = ComputeBudgetInstruction::set_compute_unit_limit(1_400_000);
    let compute_price_ix = ComputeBudgetInstruction::set_compute_unit_price(1_000_000);

    let instructions = vec![compute_limit_ix, compute_price_ix, to_ledger(&deploy_ix)];

    assert_eq!(instructions.len(), 3, "Should have 3 instructions");

    // Verify instruction ordering (compute budget should be first)
    let first_is_compute_budget = instructions[0].program_id == solana_sdk::compute_budget::ID;
    assert!(first_is_compute_budget, "First instruction should be compute budget");

    Ok(())
}

#[test]
fn test_miner_state_after_deployment() -> Result<()> {
    let miner_keypair = Keypair::new();
    let blocks = vec![3, 8, 13, 18];
    let amount_per_block = LAMPORTS_PER_SOL / 5;
    let round_id = 50u64;

    // Simulate miner state before deployment
    let mut miner_state = Miner {
        authority: miner_keypair.pubkey().to_bytes(),
        deployed: [0; 25],
        cumulative: [0; 25],
        checkpoint_fee: 0,
        checkpoint_id: 0,
        last_claim_ore_at: 0,
        last_claim_sol_at: 0,
        rewards_factor: [0; 16],
        rewards_ore: 0,
        rewards_sol: 0,
        refined_ore: 0,
        round_id,
        lifetime_rewards_ore: 0,
        lifetime_rewards_sol: 0,
    };

    // Apply deployment
    for &block in &blocks {
        miner_state.deployed[block] = amount_per_block;
    }

    // Verify miner state
    assert_eq!(verify_miner_state(&miner_state, &blocks, amount_per_block, round_id), Ok(()));

    Ok(())
}

#[test]
fn test_amount_encoding() -> Result<()> {
    // Test various SOL amounts
    let test_cases = vec![
        (0.1, 100_000_000u64),
        (0.5, 500_000_000u64),
        (1.0, 1_000_000_000u64),
        (5.0, 5_000_000_000u64),
    ];

    for (sol, expected_lamports) in test_cases {
        let lamports = (sol * LAMPORTS_PER_SOL as f64) as u64;
        assert_eq!(lamports, expected_lamports, "Conversion mismatch for {} SOL", sol);
        assert_eq!(to_subunits(sol), expected_lamports, "Conversion mismatch for {} SOL", sol);
    }

    Ok(())
}

#[test]
fn test_block_bitmask_encoding() -> Result<()> {
    // Test deploying to specific blocks
    let test_cases = vec![
        (vec![0], "Single block (0)"),
        (vec![0, 24], "Corners"),
        (vec![12], "Center"),
        (vec![0, 6, 12, 18, 24], "Cross pattern"),
        (vec![5, 10, 15, 20], "Diagonal"),
    ];

    for (blocks, description) in test_cases {
        // Create squares array
        let mut squares = [false; 25];
        for &block in &blocks {
            squares[block] = true;
        }

        // Verify bitmask
        let mut mask: u32 = 0;
        for (i, &square) in squares.iter().enumerate() {
            if square {
                mask |= 1 << i;
            }
        }
        assert_eq!(encode_mask(&blocks), mask, "{}", description);

        // Decode back
        let decoded_blocks = decode_mask(mask);

        assert_eq!(blocks, decoded_blocks, "Bitmask encode/decode mismatch");
    }

    Ok(())
}

#[test]
fn test_deploy_instruction_creation() -> Result<()> {
    let program_id = Pubkey::from_str(ORE_PROGRAM)?;
    let miner = Keypair::new();
    let blocks = vec![5, 10, 15];
    let amount = LAMPORTS_PER_SOL / 10; // 0.1 SOL
    let round_id = 42u64;

    let ix = create_deploy_instruction(
        miner.pubkey().to_bytes(),
        miner.pubkey().to_bytes(),
        amount,
        round_id,
        &blocks,
    )
    .expect("the request is valid");

    // Verify instruction
    assert_eq!(Pubkey::new_from_array(ix.program_id), program_id, "Wrong program ID");
    assert_eq!(ix.accounts.len(), 7, "Should have 7 accounts");
    assert!(!ix.data.is_empty(), "Instruction data should not be empty");

    Ok(())
}

#[test]
fn test_pda_derivation() -> Result<()> {
    let miner = Keypair::new();

    // Derive PDAs
    let (_board_address, board_bump) = board_pda(&ORE_PROGRAM_ID).expect("board");
    let (_config_address, config_bump) = config_pda(&ORE_PROGRAM_ID).expect("config");
    let (_treasury_address, treasury_bump) = treasury_pda(&ORE_PROGRAM_ID).expect("treasury");
    let (_miner_address, miner_bump) =
        miner_pda(&ORE_PROGRAM_ID, &miner.pubkey().to_bytes()).expect("miner");
    let (_round_address, round_bump) = round_pda(&ORE_PROGRAM_ID, 1).expect("round");

    // Verify they're valid PDAs (bumps should be 0-255)
    assert!(u32::from(board_bump) <= 255);
    assert!(u32::from(config_bump) <= 255);
    assert!(u32::from(treasury_bump) <= 255);
    assert!(u32::from(miner_bump) <= 255);
    assert!(u32::from(round_bump) <= 255);

    Ok(())
}

#[test]
fn test_transaction_construction() -> Result<()> {
    let miner = Keypair::new();
    let blocks = vec![5, 10, 15];
    let amount = LAMPORTS_PER_SOL / 10;
    let round_id = 42u64;

    // Create deploy instruction
    let deploy_ix = create_deploy_instruction(
        miner.pubkey().to_bytes(),
        miner.pubkey().to_bytes(),
        amount,
        round_id,
        &blocks,
    )
    .expect("the request is valid");

    // Add compute budget instructions (like in production)
    let compute_limit_ix = ComputeBudgetInstruction::set_compute_unit_limit(1_400_000);
    let compute_price_ix = ComputeBudgetInstruction::set_compute_unit_price(1_000_000);

    // Build full transaction
    let instructions = vec![compute_limit_ix, compute_price_ix, to_ledger(&deploy_ix)];

    assert_eq!(instructions.len(), 3, "Should have 3 instructions");

    Ok(())
}

#[test]
fn test_fetch_available_blocks_flow() -> Result<()> {
    let miner = Keypair::new();

    // Simulate a round with mixed deployment status
    let round = Round {
        id: 100,
        deployed: [
            // First 10 blocks: low deployment (available)
            10_000_000, 20_000_000, 30_000_000, 40_000_000, 50_000_000,
            60_000_000, 70_000_000, 80_000_000, 90_000_000, 100_000_000,
            // Next 10 blocks: high deployment (not available at 1 SOL threshold)
            2_000_000_000, 3_000_000_000, 1_500_000_000, 2_500_000_000, 1_800_000_000,
            1_200_000_000, 2_200_000_000, 1_900_000_000, 2_100_000_000, 1_600_000_000,
            // Last 5 blocks: low deployment (available)
            50_000_000, 60_000_000, 70_000_000, 80_000_000, 90_000_000,
        ],
        slot_hash: [0; 32],
        count: [1; 25],
        expires_at: 1000,
        motherlode: 10 * LAMPORTS_PER_SOL,
        rent_payer: miner.pubkey().to_bytes(),
        top_miner: Pubkey::default().to_bytes(),
        top_miner_reward: 0,
        total_deployed: 0,
        total_vaulted: 0,
        total_winnings: 0,
    };

    // Test different thresholds
    let test_cases = vec![
        (0.5, "0.5 SOL threshold"),
        (1.0, "1.0 SOL threshold"),
        (2.0, "2.0 SOL threshold"),
    ];

    for (threshold_sol, _description) in test_cases {
        let threshold_lamports = (threshold_sol * LAMPORTS_PER_SOL as f64) as u64;

        let available = get_available_blocks(&round, to_subunits(threshold_sol));

        // Verify all returned blocks are actually below threshold
        for &block in &available {
            assert!(
                round.deployed[block] < threshold_lamports,
                "Block {} has {} lamports, exceeds threshold of {}",
                block,
                round.deployed[block],
                threshold_lamports
            );
        }
    }

    Ok(())
}

#[test]
fn test_random_block_selection() -> Result<()> {
    // Simulate available blocks
    let available_blocks = vec![0, 2, 5, 7, 10, 12, 15, 18, 20, 22, 24];

    // Test selecting different quantities
    let quantities = vec![1, 3, 5, available_blocks.len()];

    for &quantity in &quantities {
        // Simulate random selection (in real script this uses shuf)
        let mut selected: Vec<usize> = available_blocks.iter().copied().take(quantity).collect();
        selected.sort();

        assert_eq!(selected.len(), quantity, "Should select exactly {} blocks", quantity);

        // Verify all selected blocks are from available pool
        for &block in &selected {
            assert!(available_blocks.contains(&block), "Block {} not in available pool", block);
        }
    }

    Ok(())
}

#[test]
fn test_multi_block_deployment_flow() -> Result<()> {
    let miner = Keypair::new();
    let blocks_quantity = 5;
    let bet_amount_per_block = LAMPORTS_PER_SOL / 10; // 0.1 SOL

    // Step 1: Simulate fetching available blocks
    let round = Round {
        id: 200,
        deployed: [50_000_000; 25], // All blocks available (0.05 SOL each)
        slot_hash: [0; 32],
        count: [0; 25],
        expires_at: 1000,
        motherlode: 10 * LAMPORTS_PER_SOL,
        rent_payer: miner.pubkey().to_bytes(),
        top_miner: Pubkey::default().to_bytes(),
        top_miner_reward: 0,
        total_deployed: 0,
        total_vaulted: 0,
        total_winnings: 0,
    };

    let available = get_available_blocks(&round, to_subunits(1.0));

    assert!(available.len() >= blocks_quantity, "Not enough available blocks");

    // Step 2: Randomly select blocks
    let selected_blocks: Vec<usize> = available.iter().copied().take(blocks_quantity).collect();

    assert_eq!(
        selected_blocks.len(),
        blocks_quantity,
        "Should select exactly {} blocks",
        blocks_quantity
    );

    // Step 3: Create deployment instructions for each block
    let mut instructions = Vec::new();

    for &block in &selected_blocks {
        let ix = create_deploy_instruction(
            miner.pubkey().to_bytes(),
            miner.pubkey().to_bytes(),
            bet_amount_per_block,
            round.id,
            &[block],
        )
        .expect("the request is valid");

        assert_eq!(ix.accounts.len(), 7, "Invalid instruction for block {}", block);
        assert!(!ix.data.is_empty(), "Empty instruction data for block {}", block);

        instructions.push((block, ix));
    }

    // Step 4: Simulate deployment and state changes
    let mut post_round = round;

    for &block in &selected_blocks {
        post_round.deployed[block] += bet_amount_per_block;
        post_round.count[block] += 1;
        post_round.total_deployed += bet_amount_per_block;
    }

    // Step 5: Verify total deployment
    let total_deployed = bet_amount_per_block * selected_blocks.len() as u64;

    assert_eq!(
        post_round.total_deployed - round.total_deployed,
        total_deployed,
        "Total deployed mismatch"
    );

    Ok(())
}

#[test]
fn test_blocks_quantity_validation() -> Result<()> {
    let available_blocks = vec![0, 1, 2, 3, 4, 5, 6, 7, 8, 9];
    let available_count = available_blocks.len();

    // Test cases for BLOCKS_QUANTITY validation
    let test_cases = vec![
        (1, true, "Single block"),
        (3, true, "Normal quantity"),
        (available_count, true, "All available blocks"),
        (available_count + 5, false, "More than available"),
        (0, false, "Zero blocks"),
    ];

    for (quantity, should_succeed, _description) in test_cases {
        if should_succeed {
            let actual_quantity = quantity.min(available_count);
            assert!(actual_quantity > 0 && actual_quantity <= available_count);
        } else {
            if quantity == 0 {
                assert_eq!(quantity, 0);
            } else if quantity > available_count {
                assert!(quantity > available_count);
            }
        }
    }

    Ok(())
}
