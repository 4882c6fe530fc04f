//! Ledger records of the deployment protocol.
//!
//! The records are plain values: fixed-width integers, 32-byte addresses and
//! arrays with one entry per block. Nothing here creates or destroys a record
//! on the ledger; the records are decoded from fetched bytes and compared.

use vstd::prelude::*;

verus! {

/// Number of blocks a round is divided into.
pub const BLOCK_COUNT: usize = 25;

/// Sub-units in one whole unit of the currency.
pub const SUBUNITS_PER_UNIT: u64 = 1_000_000_000;

/// A ledger address: 32 opaque bytes.
pub type Address = [u8; 32];

/// The singleton record that names the active round and its validity window.
#[derive(Clone, Copy, Debug, PartialEq, Eq)]
pub struct Board {
    /// Identifier of the active round.
    pub round_id: u64,
    /// First slot of the round's window.
    pub start_slot: u64,
    /// Last slot of the round's window.
    pub end_slot: u64,
}

/// The per-round aggregate: what was deployed to each block, and by how many
/// miners.
#[derive(Clone, Copy, Debug, PartialEq, Eq)]
pub struct Round {
    /// The round's identifier.
    pub id: u64,
    /// Amount deployed to each block, in sub-units.
    pub deployed: [u64; 25],
    /// Number of deposits made to each block.
    pub count: [u64; 25],
    /// Randomness seed of the round; carried, never computed here.
    pub slot_hash: [u8; 32],
    /// Slot after which the round is expired.
    pub expires_at: u64,
    /// Prize pool of the round.
    pub motherlode: u64,
    /// Address that paid the record's rent.
    pub rent_payer: Address,
    /// Address of the round's top miner.
    pub top_miner: Address,
    /// Reward of the top miner.
    pub top_miner_reward: u64,
    /// Sum of what was deployed to all blocks.
    pub total_deployed: u64,
    /// Total amount vaulted.
    pub total_vaulted: u64,
    /// Total amount won.
    pub total_winnings: u64,
}

/// The per-identity record: a miner's stake in its current round and its
/// history.
#[derive(Clone, Copy, Debug, PartialEq, Eq)]
pub struct Miner {
    /// The identity this record belongs to.
    pub authority: Address,
    /// This miner's stake per block in its current round.
    pub deployed: [u64; 25],
    /// Historical totals per block.
    pub cumulative: [u64; 25],
    /// Fee withheld for checkpointing.
    pub checkpoint_fee: u64,
    /// Identifier of the last checkpoint.
    pub checkpoint_id: u64,
    /// Time of the last token claim.
    pub last_claim_ore_at: i64,
    /// Time of the last native claim.
    pub last_claim_sol_at: i64,
    /// Accrual factor, kept as the 16 bytes of its fixed-point form.
    pub rewards_factor: [u8; 16],
    /// Claimable token rewards.
    pub rewards_ore: u64,
    /// Claimable native rewards.
    pub rewards_sol: u64,
    /// Claimable refined token rewards.
    pub refined_ore: u64,
    /// The round the stakes in `deployed` belong to.
    pub round_id: u64,
    /// Token rewards earned over the record's life.
    pub lifetime_rewards_ore: u64,
    /// Native rewards earned over the record's life.
    pub lifetime_rewards_sol: u64,
}

/// Protocol-wide parameters. The protocol core only carries them.
#[derive(Clone, Copy, Debug, PartialEq, Eq)]
pub struct Config {
    /// Authority of the admin parameters.
    pub admin_authority: Address,
    /// Collector of the admin fee.
    pub admin_fee_collector: Address,
    /// Admin fee rate.
    pub admin_fee_rate: u64,
    /// Authority of the protocol parameters.
    pub authority: Address,
    /// Collector of the protocol fee.
    pub fee_collector: Address,
    /// Protocol fee rate.
    pub fee_rate: u64,
    /// Slots between two rounds.
    pub intermission_slots: u64,
    /// Slots in a round.
    pub round_slots: u64,
    /// Address of the entropy variable.
    pub entropy_var_address: Address,
    /// Identifier of the entropy program.
    pub entropy_program_id: Address,
}

/// Sum of a sequence of amounts, as a mathematical integer.
pub open spec fn sum_amounts(s: Seq<u64>) -> nat
    decreases s.len(),
{
    if s.len() == 0 {
        0
    } else {
        sum_amounts(s.drop_last()) + s.last() as nat
    }
}

impl Board {
    /// The window of a board does not end before it starts.
    pub open spec fn well_formed(self) -> bool {
        self.start_slot <= self.end_slot
    }

    /// Tells whether the board is well formed.
    pub fn is_well_formed(&self) -> (r: bool)
        ensures
            r == self.well_formed(),
    {
        self.start_slot <= self.end_slot
    }

    /// Slots left in the window at `slot`: zero once the window has ended.
    pub open spec fn remaining(self, slot: u64) -> int {
        if slot <= self.end_slot {
            self.end_slot - slot
        } else {
            0
        }
    }

    /// Slots left in the window at `slot`.
    pub fn slots_remaining(&self, slot: u64) -> (r: u64)
        ensures
            r == self.remaining(slot),
    {
        if slot <= self.end_slot {
            self.end_slot - slot
        } else {
            0
        }
    }
}

impl Round {
    /// Block `i` is on the board and holds nothing yet.
    pub open spec fn untouched(self, i: int) -> bool {
        0 <= i < 25 && self.deployed[i] == 0
    }

    /// Tells whether block `i` is on the board and holds nothing yet.
    pub fn block_is_untouched(&self, i: usize) -> (r: bool)
        ensures
            r == self.untouched(i as int),
    {
        i < BLOCK_COUNT && self.deployed[i] == 0
    }

    /// The aggregate agrees with itself: the total is the sum over the
    /// blocks, and a block that holds an amount has been deposited to.
    pub open spec fn consistent(self) -> bool {
        &&& self.total_deployed == sum_amounts(self.deployed@)
        &&& forall|i: int| 0 <= i < 25 && self.deployed[i] > 0 ==> self.count[i] > 0
    }

    /// Tells whether the aggregate agrees with itself.
    pub fn is_consistent(&self) -> (r: bool)
        ensures
            r == self.consistent(),
    {
        let mut total: u128 = 0;
        let mut counted: bool = true;
        let mut i: usize = 0;
        while i < 25
            invariant
                i <= 25,
                total == sum_amounts(self.deployed@.take(i as int)),
                total <= i * 0xffff_ffff_ffff_ffff,
                counted == (forall|j: int| 0 <= j < i && self.deployed[j] > 0 ==> self.count[j] > 0),
            decreases 25 - i,
        {
            proof {
                assert(self.deployed@.take(i + 1).drop_last() =~= self.deployed@.take(i as int));
            }
            total = total + self.deployed[i] as u128;
            if self.deployed[i] > 0 && self.count[i] == 0 {
                counted = false;
            }
            i = i + 1;
        }
        proof {
            assert(self.deployed@.take(25) =~= self.deployed@);
        }
        counted && total == self.total_deployed as u128
    }
}

} // verus!
