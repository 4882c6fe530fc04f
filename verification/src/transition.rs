//! Comparison of two ledger snapshots taken before and after one deploy.
//!
//! A deploy of `amount` to a list of blocks must raise each block's deployed
//! amount by `amount` and its deposit counter by one, raise the round's total
//! by `amount` for every listed block, and leave the miner in the targeted
//! round with `amount` staked on each listed block. The functions here report
//! the first place where a snapshot pair departs from that.

use vstd::prelude::*;
use crate::state::{Miner, Round, BLOCK_COUNT};

verus! {

/// The quantity a violation is about.
#[derive(Clone, Copy, Debug, PartialEq, Eq)]
pub enum Field {
    /// A listed block index that is not on the board.
    BlockIndex,
    /// `deployed` of one block of the round.
    RoundDeployed,
    /// `count` of one block of the round.
    RoundCount,
    /// `total_deployed` of the round.
    RoundTotalDeployed,
    /// `round_id` of the miner.
    MinerRoundId,
    /// `deployed` of one block of the miner.
    MinerDeployed,
}

/// The first divergence between what a deploy must leave behind and what a
/// snapshot holds.
#[derive(Clone, Copy, Debug, PartialEq, Eq)]
pub struct InvariantViolation {
    /// The quantity that diverges.
    pub field: Field,
    /// The block concerned, for the per-block quantities.
    pub block: Option<usize>,
    /// The value the quantity must have. For `BlockIndex`, the largest index
    /// on the board.
    pub expected: u128,
    /// The value found.
    pub actual: u128,
}

/// What is wrong with the round at one listed block `b`, if anything: the
/// index first, then the deployed amount, then the deposit counter.
pub open spec fn round_block_violation(
    pre: Round,
    post: Round,
    b: usize,
    amount: u64,
) -> Option<InvariantViolation> {
    if b >= 25 {
        Some(
            InvariantViolation {
                field: Field::BlockIndex,
                block: Some(b),
                expected: 24,
                actual: b as u128,
            },
        )
    } else if post.deployed[b as int] != pre.deployed[b as int] + amount {
        Some(
            InvariantViolation {
                field: Field::RoundDeployed,
                block: Some(b),
                expected: (pre.deployed[b as int] + amount) as u128,
                actual: post.deployed[b as int] as u128,
            },
        )
    } else if post.count[b as int] != pre.count[b as int] + 1 {
        Some(
            InvariantViolation {
                field: Field::RoundCount,
                block: Some(b),
                expected: (pre.count[b as int] + 1) as u128,
                actual: post.count[b as int] as u128,
            },
        )
    } else {
        None
    }
}

/// The violation at the earliest position of `blocks` that has one.
pub open spec fn round_blocks_violation(
    pre: Round,
    post: Round,
    blocks: Seq<usize>,
    amount: u64,
) -> Option<InvariantViolation>
    decreases blocks.len(),
{
    if blocks.len() == 0 {
        None
    } else {
        match round_blocks_violation(pre, post, blocks.drop_last(), amount) {
            Some(v) => Some(v),
            None => round_block_violation(pre, post, blocks.last(), amount),
        }
    }
}

/// What is wrong with the round's total after a deploy to `n` blocks.
pub open spec fn round_total_violation(
    pre: Round,
    post: Round,
    n: nat,
    amount: u64,
) -> Option<InvariantViolation> {
    if post.total_deployed != pre.total_deployed + amount * n {
        Some(
            InvariantViolation {
                field: Field::RoundTotalDeployed,
                block: None,
                expected: (pre.total_deployed + amount * n) as u128,
                actual: post.total_deployed as u128,
            },
        )
    } else {
        None
    }
}

/// The first divergence of a round transition: the listed blocks in their
/// order, then the total.
pub open spec fn round_violation(
    pre: Round,
    post: Round,
    blocks: Seq<usize>,
    amount: u64,
) -> Option<InvariantViolation> {
    match round_blocks_violation(pre, post, blocks, amount) {
        Some(v) => Some(v),
        None => round_total_violation(pre, post, blocks.len(), amount),
    }
}

/// The round transition that one deploy of `amount` to each of `blocks` must
/// produce.
pub open spec fn deploy_recorded(pre: Round, post: Round, blocks: Seq<usize>, amount: u64) -> bool {
    &&& forall|k: int|
        0 <= k < blocks.len() ==> {
            &&& #[trigger] blocks[k] < 25
            &&& post.deployed[blocks[k] as int] == pre.deployed[blocks[k] as int] + amount
            &&& post.count[blocks[k] as int] == pre.count[blocks[k] as int] + 1
        }
    &&& post.total_deployed - pre.total_deployed == amount * blocks.len()
}

/// What is wrong with the miner at one listed block `b`, if anything.
pub open spec fn miner_block_violation(miner: Miner, b: usize, amount: u64) -> Option<InvariantViolation> {
    if b >= 25 {
        Some(
            InvariantViolation {
                field: Field::BlockIndex,
                block: Some(b),
                expected: 24,
                actual: b as u128,
            },
        )
    } else if miner.deployed[b as int] != amount {
        Some(
            InvariantViolation {
                field: Field::MinerDeployed,
                block: Some(b),
                expected: amount as u128,
                actual: miner.deployed[b as int] as u128,
            },
        )
    } else {
        None
    }
}

/// The violation at the earliest position of `blocks` that has one.
pub open spec fn miner_blocks_violation(
    miner: Miner,
    blocks: Seq<usize>,
    amount: u64,
) -> Option<InvariantViolation>
    decreases blocks.len(),
{
    if blocks.len() == 0 {
        None
    } else {
        match miner_blocks_violation(miner, blocks.drop_last(), amount) {
            Some(v) => Some(v),
            None => miner_block_violation(miner, blocks.last(), amount),
        }
    }
}

/// The first divergence of a miner after a deploy: the round it is in, then
/// the listed blocks in their order.
pub open spec fn miner_violation(
    miner: Miner,
    blocks: Seq<usize>,
    amount: u64,
    round_id: u64,
) -> Option<InvariantViolation> {
    if miner.round_id != round_id {
        Some(
            InvariantViolation {
                field: Field::MinerRoundId,
                block: None,
                expected: round_id as u128,
                actual: miner.round_id as u128,
            },
        )
    } else {
        miner_blocks_violation(miner, blocks, amount)
    }
}

/// The miner state that a first deploy of `amount` to each of `blocks` in
/// round `round_id` must leave.
pub open spec fn stake_recorded(miner: Miner, blocks: Seq<usize>, amount: u64, round_id: u64) -> bool {
    &&& miner.round_id == round_id
    &&& forall|k: int|
        0 <= k < blocks.len() ==> {
            &&& #[trigger] blocks[k] < 25
            &&& miner.deployed[blocks[k] as int] == amount
        }
}

fn check_round_block(pre: &Round, post: &Round, b: usize, amount: u64) -> (r: Option<InvariantViolation>)
    ensures
        r == round_block_violation(*pre, *post, b, amount),
{
    if b >= BLOCK_COUNT {
        return Some(
            InvariantViolation {
                field: Field::BlockIndex,
                block: Some(b),
                expected: 24,
                actual: b as u128,
            },
        );
    }
    let expected_deployed: u128 = pre.deployed[b] as u128 + amount as u128;
    if post.deployed[b] as u128 != expected_deployed {
        return Some(
            InvariantViolation {
                field: Field::RoundDeployed,
                block: Some(b),
                expected: expected_deployed,
                actual: post.deployed[b] as u128,
            },
        );
    }
    let expected_count: u128 = pre.count[b] as u128 + 1;
    if post.count[b] as u128 != expected_count {
        return Some(
            InvariantViolation {
                field: Field::RoundCount,
                block: Some(b),
                expected: expected_count,
                actual: post.count[b] as u128,
            },
        );
    }
    None
}

/// Holds the round snapshots `old_round` and `new_round` against a deploy of
/// `amount` to each of `blocks`: accepts exactly the transitions that
/// `deploy_recorded` describes, and otherwise reports the first divergence.
pub fn verify_deployment(
    old_round: &Round,
    new_round: &Round,
    blocks: &[usize],
    amount: u64,
) -> (r: Result<(), InvariantViolation>)
    ensures
        r is Ok <==> deploy_recorded(*old_round, *new_round, blocks@, amount),
        match r {
            Ok(_) => round_violation(*old_round, *new_round, blocks@, amount) is None,
            Err(v) => round_violation(*old_round, *new_round, blocks@, amount) == Some(v),
        },
{
    let n: usize = blocks.len();
    let mut i: usize = 0;
    while i < n
        invariant
            i <= n,
            n == blocks@.len(),
            round_blocks_violation(*old_round, *new_round, blocks@.take(i as int), amount) is None,
        decreases n - i,
    {
        proof {
            assert(blocks@.take(i + 1).drop_last() =~= blocks@.take(i as int));
        }
        match check_round_block(old_round, new_round, blocks[i], amount) {
            Some(v) => {
                proof {
                    lemma_round_blocks_violation_extends(
                        *old_round,
                        *new_round,
                        blocks@,
                        amount,
                        i + 1,
                    );
                    lemma_round_accepts_recorded(*old_round, *new_round, blocks@, amount);
                }
                return Err(v);
            },
            None => {},
        }
        i = i + 1;
    }
    proof {
        assert(blocks@.take(n as int) =~= blocks@);
        lemma_round_accepts_recorded(*old_round, *new_round, blocks@, amount);
        assert(amount * n <= 0xffff_ffff_ffff_ffff * 0xffff_ffff_ffff_ffff) by (nonlinear_arith)
            requires
                amount <= 0xffff_ffff_ffff_ffff,
                n <= 0xffff_ffff_ffff_ffff,
        ;
    }
    let expected_total: u128 = old_round.total_deployed as u128 + (amount as u128) * (n as u128);
    if new_round.total_deployed as u128 != expected_total {
        return Err(
            InvariantViolation {
                field: Field::RoundTotalDeployed,
                block: None,
                expected: expected_total,
                actual: new_round.total_deployed as u128,
            },
        );
    }
    Ok(())
}

fn check_miner_block(miner: &Miner, b: usize, amount: u64) -> (r: Option<InvariantViolation>)
    ensures
        r == miner_block_violation(*miner, b, amount),
{
    if b >= BLOCK_COUNT {
        return Some(
            InvariantViolation {
                field: Field::BlockIndex,
                block: Some(b),
                expected: 24,
                actual: b as u128,
            },
        );
    }
    if miner.deployed[b] != amount {
        return Some(
            InvariantViolation {
                field: Field::MinerDeployed,
                block: Some(b),
                expected: amount as u128,
                actual: miner.deployed[b] as u128,
            },
        );
    }
    None
}

/// Holds a miner snapshot against a first deploy of `amount` to each of
/// `blocks` in round `round_id`: accepts exactly the states that
/// `stake_recorded` describes, and otherwise reports the first divergence.
pub fn verify_miner_state(
    miner: &Miner,
    blocks: &[usize],
    amount: u64,
    round_id: u64,
) -> (r: Result<(), InvariantViolation>)
    ensures
        r is Ok <==> stake_recorded(*miner, blocks@, amount, round_id),
        match r {
            Ok(_) => miner_violation(*miner, blocks@, amount, round_id) is None,
            Err(v) => miner_violation(*miner, blocks@, amount, round_id) == Some(v),
        },
{
    proof {
        lemma_miner_accepts_recorded(*miner, blocks@, amount, round_id);
    }
    if miner.round_id != round_id {
        return Err(
            InvariantViolation {
                field: Field::MinerRoundId,
                block: None,
                expected: round_id as u128,
                actual: miner.round_id as u128,
            },
        );
    }
    let n: usize = blocks.len();
    let mut i: usize = 0;
    while i < n
        invariant
            i <= n,
            n == blocks@.len(),
            miner.round_id == round_id,
            miner_blocks_violation(*miner, blocks@.take(i as int), amount) is None,
        decreases n - i,
    {
        proof {
            assert(blocks@.take(i + 1).drop_last() =~= blocks@.take(i as int));
        }
        match check_miner_block(miner, blocks[i], amount) {
            Some(v) => {
                proof {
                    lemma_miner_blocks_violation_extends(*miner, blocks@, amount, i + 1);
                    lemma_miner_accepts_recorded(*miner, blocks@, amount, round_id);
                }
                return Err(v);
            },
            None => {},
        }
        i = i + 1;
    }
    proof {
        assert(blocks@.take(n as int) =~= blocks@);
    }
    Ok(())
}

/// The first divergence of a whole transition: the round first, then the
/// miner, which must be in the round that was deployed to.
pub open spec fn transition_violation(
    pre: Round,
    post: Round,
    miner: Miner,
    blocks: Seq<usize>,
    amount: u64,
) -> Option<InvariantViolation> {
    match round_violation(pre, post, blocks, amount) {
        Some(v) => Some(v),
        None => miner_violation(miner, blocks, amount, pre.id),
    }
}

/// Holds both snapshots taken after a deploy against it: the round
/// transition first, then the miner.
pub fn verify_deploy_transition(
    old_round: &Round,
    new_round: &Round,
    miner: &Miner,
    blocks: &[usize],
    amount: u64,
) -> (r: Result<(), InvariantViolation>)
    ensures
        r is Ok <==> deploy_recorded(*old_round, *new_round, blocks@, amount) && stake_recorded(
            *miner,
            blocks@,
            amount,
            old_round.id,
        ),
        match r {
            Ok(_) => transition_violation(*old_round, *new_round, *miner, blocks@, amount) is None,
            Err(v) => transition_violation(*old_round, *new_round, *miner, blocks@, amount)
                == Some(v),
        },
{
    match verify_deployment(old_round, new_round, blocks, amount) {
        Err(v) => Err(v),
        Ok(_) => verify_miner_state(miner, blocks, amount, old_round.id),
    }
}

/// A violation found in a prefix of the list is the violation of the whole
/// list.
pub proof fn lemma_round_blocks_violation_extends(
    pre: Round,
    post: Round,
    blocks: Seq<usize>,
    amount: u64,
    n: int,
)
    requires
        0 <= n <= blocks.len(),
        round_blocks_violation(pre, post, blocks.take(n), amount) is Some,
    ensures
        round_blocks_violation(pre, post, blocks, amount) == round_blocks_violation(
            pre,
            post,
            blocks.take(n),
            amount,
        ),
    decreases blocks.len() - n,
{
    if n < blocks.len() {
        assert(blocks.take(n + 1).drop_last() =~= blocks.take(n));
        lemma_round_blocks_violation_extends(pre, post, blocks, amount, n + 1);
    } else {
        assert(blocks.take(n) =~= blocks);
    }
}

/// No listed block has a violation exactly when every listed block is on the
/// board and has grown by the deposit.
pub proof fn lemma_round_blocks_accepted(pre: Round, post: Round, blocks: Seq<usize>, amount: u64)
    ensures
        round_blocks_violation(pre, post, blocks, amount) is None <==> (forall|k: int|
            0 <= k < blocks.len() ==> {
                &&& #[trigger] blocks[k] < 25
                &&& post.deployed[blocks[k] as int] == pre.deployed[blocks[k] as int] + amount
                &&& post.count[blocks[k] as int] == pre.count[blocks[k] as int] + 1
            }),
    decreases blocks.len(),
{
    if blocks.len() > 0 {
        let front = blocks.drop_last();
        lemma_round_blocks_accepted(pre, post, front, amount);
        assert(forall|k: int| 0 <= k < front.len() ==> front[k] == blocks[k]);
        if round_blocks_violation(pre, post, blocks, amount) is None {
            assert forall|k: int| 0 <= k < blocks.len() implies {
                &&& #[trigger] blocks[k] < 25
                &&& post.deployed[blocks[k] as int] == pre.deployed[blocks[k] as int] + amount
                &&& post.count[blocks[k] as int] == pre.count[blocks[k] as int] + 1
            } by {
                if k < front.len() {
                    assert(front[k] == blocks[k]);
                }
            }
        } else {
            if round_blocks_violation(pre, post, front, amount) is Some {
                let k = choose|k: int|
                    0 <= k < front.len() && !({
                        &&& #[trigger] front[k] < 25
                        &&& post.deployed[front[k] as int] == pre.deployed[front[k] as int] + amount
                        &&& post.count[front[k] as int] == pre.count[front[k] as int] + 1
                    });
                assert(front[k] == blocks[k]);
            } else {
                assert(blocks[blocks.len() - 1] == blocks.last());
            }
        }
    }
}

/// The round comparison finds nothing exactly on the transitions that
/// `deploy_recorded` describes.
pub proof fn lemma_round_accepts_recorded(pre: Round, post: Round, blocks: Seq<usize>, amount: u64)
    ensures
        round_violation(pre, post, blocks, amount) is None <==> deploy_recorded(
            pre,
            post,
            blocks,
            amount,
        ),
{
    lemma_round_blocks_accepted(pre, post, blocks, amount);
}

/// A violation found in a prefix of the list is the violation of the whole
/// list.
pub proof fn lemma_miner_blocks_violation_extends(
    miner: Miner,
    blocks: Seq<usize>,
    amount: u64,
    n: int,
)
    requires
        0 <= n <= blocks.len(),
        miner_blocks_violation(miner, blocks.take(n), amount) is Some,
    ensures
        miner_blocks_violation(miner, blocks, amount) == miner_blocks_violation(
            miner,
            blocks.take(n),
            amount,
        ),
    decreases blocks.len() - n,
{
    if n < blocks.len() {
        assert(blocks.take(n + 1).drop_last() =~= blocks.take(n));
        lemma_miner_blocks_violation_extends(miner, blocks, amount, n + 1);
    } else {
        assert(blocks.take(n) =~= blocks);
    }
}

/// No listed block has a violation exactly when every listed block is on the
/// board and holds the deposit.
pub proof fn lemma_miner_blocks_accepted(miner: Miner, blocks: Seq<usize>, amount: u64)
    ensures
        miner_blocks_violation(miner, blocks, amount) is None <==> (forall|k: int|
            0 <= k < blocks.len() ==> {
                &&& #[trigger] blocks[k] < 25
                &&& miner.deployed[blocks[k] as int] == amount
            }),
    decreases blocks.len(),
{
    if blocks.len() > 0 {
        let front = blocks.drop_last();
        lemma_miner_blocks_accepted(miner, front, amount);
        assert(forall|k: int| 0 <= k < front.len() ==> front[k] == blocks[k]);
        if miner_blocks_violation(miner, blocks, amount) is None {
            assert forall|k: int| 0 <= k < blocks.len() implies {
                &&& #[trigger] blocks[k] < 25
                &&& miner.deployed[blocks[k] as int] == amount
            } by {
                if k < front.len() {
                    assert(front[k] == blocks[k]);
                }
            }
        } else {
            if miner_blocks_violation(miner, front, amount) is Some {
                let k = choose|k: int|
                    0 <= k < front.len() && !({
                        &&& #[trigger] front[k] < 25
                        &&& miner.deployed[front[k] as int] == amount
                    });
                assert(front[k] == blocks[k]);
            } else {
                assert(blocks[blocks.len() - 1] == blocks.last());
            }
        }
    }
}

/// The miner comparison finds nothing exactly on the states that
/// `stake_recorded` describes.
pub proof fn lemma_miner_accepts_recorded(
    miner: Miner,
    blocks: Seq<usize>,
    amount: u64,
    round_id: u64,
)
    ensures
        miner_violation(miner, blocks, amount, round_id) is None <==> stake_recorded(
            miner,
            blocks,
            amount,
            round_id,
        ),
{
    lemma_miner_blocks_accepted(miner, blocks, amount);
}

/// The violation reported for a list of blocks is the one at the earliest
/// position that has any.
pub proof fn lemma_round_violation_is_first(
    pre: Round,
    post: Round,
    blocks: Seq<usize>,
    amount: u64,
    k: int,
)
    requires
        0 <= k < blocks.len(),
        round_blocks_violation(pre, post, blocks.take(k), amount) is None,
        round_block_violation(pre, post, blocks[k], amount) is Some,
    ensures
        round_violation(pre, post, blocks, amount) == round_block_violation(
            pre,
            post,
            blocks[k],
            amount,
        ),
{
    assert(blocks.take(k + 1).drop_last() =~= blocks.take(k));
    assert(blocks.take(k + 1).last() == blocks[k]);
    lemma_round_blocks_violation_extends(pre, post, blocks, amount, k + 1);
}

/// A deposit counter that did not advance by one on a listed block makes the
/// comparison fail.
pub proof fn lemma_stalled_count_fails(
    pre: Round,
    post: Round,
    blocks: Seq<usize>,
    amount: u64,
    k: int,
)
    requires
        0 <= k < blocks.len(),
        blocks[k] < 25,
        post.count[blocks[k] as int] != pre.count[blocks[k] as int] + 1,
    ensures
        round_violation(pre, post, blocks, amount) is Some,
{
    lemma_round_accepts_recorded(pre, post, blocks, amount);
}

/// A deposit counter that did not advance by one on a listed block is
/// reported under that block's index, with the counter's expected and actual
/// value, when nothing diverges earlier in the list and the block's deployed
/// amount is right.
pub proof fn lemma_stalled_count_is_named(
    pre: Round,
    post: Round,
    blocks: Seq<usize>,
    amount: u64,
    k: int,
)
    requires
        0 <= k < blocks.len(),
        blocks[k] < 25,
        post.count[blocks[k] as int] != pre.count[blocks[k] as int] + 1,
        post.deployed[blocks[k] as int] == pre.deployed[blocks[k] as int] + amount,
        round_blocks_violation(pre, post, blocks.take(k), amount) is None,
    ensures
        round_violation(pre, post, blocks, amount) == Some(
            InvariantViolation {
                field: Field::RoundCount,
                block: Some(blocks[k]),
                expected: (pre.count[blocks[k] as int] + 1) as u128,
                actual: post.count[blocks[k] as int] as u128,
            },
        ),
{
    lemma_round_violation_is_first(pre, post, blocks, amount, k);
}

} // verus!
