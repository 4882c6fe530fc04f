//! What one deploy does to a round.
//!
//! A deploy of `amount` to a list of blocks adds `amount` to what each listed
//! block holds, counts one deposit more on each, and adds `amount` for every
//! listed block to the round's total. The ledger applies deploys one after
//! the other, so this is also how a round moves between two snapshots taken
//! around a single deploy.

use vstd::prelude::*;
use crate::blocks::lists;
use crate::state::{sum_amounts, Round, BLOCK_COUNT};
use crate::transition::{deploy_recorded, lemma_round_accepts_recorded, round_violation};

verus! {

/// What a deploy of `amount` to each of `blocks` blocks moves in total, where
/// that fits 64 bits.
pub fn total_deployment(amount: u64, blocks: usize) -> (r: Option<u64>)
    ensures
        match r {
            Some(total) => total == amount * blocks,
            None => amount * blocks > u64::MAX,
        },
{
    amount.checked_mul(blocks as u64)
}

/// `blocks` lists board indices, none of them twice.
pub open spec fn distinct_blocks(blocks: Seq<usize>) -> bool {
    &&& forall|k: int| 0 <= k < blocks.len() ==> #[trigger] blocks[k] < 25
    &&& forall|a: int, b: int| 0 <= a < b < blocks.len() ==> blocks[a] != blocks[b]
}

/// What a deploy that adds `amount` to each listed block adds to block `i`.
pub open spec fn added(blocks: Seq<usize>, i: int, amount: int) -> int {
    if lists(blocks, i) {
        amount
    } else {
        0
    }
}

/// The amounts and counters of `pre` can take a deploy of `amount` to each
/// of `blocks` without leaving their 64 bits.
pub open spec fn deploy_fits(pre: Round, blocks: Seq<usize>, amount: u64) -> bool {
    &&& forall|k: int|
        0 <= k < blocks.len() && #[trigger] blocks[k] < 25 ==> {
            &&& pre.deployed[blocks[k] as int] + amount <= u64::MAX
            &&& pre.count[blocks[k] as int] + 1 <= u64::MAX
        }
    &&& pre.total_deployed + amount * blocks.len() <= u64::MAX
}

/// `post` is `pre` after one deploy of `amount` to each of `blocks`: the
/// listed blocks hold `amount` more and count one deposit more, the total
/// has grown by `amount` for each listed block, and nothing else has
/// changed.
pub open spec fn deploy_applied(pre: Round, post: Round, blocks: Seq<usize>, amount: u64) -> bool {
    &&& forall|i: int|
        0 <= i < 25 ==> #[trigger] post.deployed[i] == pre.deployed[i] + added(
            blocks,
            i,
            amount as int,
        )
    &&& forall|i: int|
        0 <= i < 25 ==> #[trigger] post.count[i] == pre.count[i] + added(blocks, i, 1)
    &&& post.total_deployed == pre.total_deployed + amount * blocks.len()
    &&& post.id == pre.id
    &&& post.slot_hash == pre.slot_hash
    &&& post.expires_at == pre.expires_at
    &&& post.motherlode == pre.motherlode
    &&& post.rent_payer == pre.rent_payer
    &&& post.top_miner == pre.top_miner
    &&& post.top_miner_reward == pre.top_miner_reward
    &&& post.total_vaulted == pre.total_vaulted
    &&& post.total_winnings == pre.total_winnings
}

/// The round after one deploy of `amount` to each of `blocks`. There is one
/// exactly when the blocks are board indices listed once each and no amount
/// or counter overflows.
pub fn apply_deploy(round: &Round, blocks: &[usize], amount: u64) -> (r: Option<Round>)
    ensures
        r is Some <==> distinct_blocks(blocks@) && deploy_fits(*round, blocks@, amount),
        r matches Some(post) ==> deploy_applied(*round, post, blocks@, amount),
{
    let mut post: Round = *round;
    let mut seen: [bool; 25] = [false; 25];
    let n: usize = blocks.len();
    let mut k: usize = 0;
    proof {
        assert(blocks@.take(0).len() == 0);
        assert(amount * 0 == 0);
    }
    while k < n
        invariant
            k <= n,
            n == blocks@.len(),
            distinct_blocks(blocks@.take(k as int)),
            deploy_fits(*round, blocks@.take(k as int), amount),
            deploy_applied(*round, post, blocks@.take(k as int), amount),
            forall|i: int| 0 <= i < 25 ==> seen[i] == lists(blocks@.take(k as int), i),
        decreases n - k,
    {
        let b: usize = blocks[k];
        let ghost done = blocks@.take(k as int);
        let ghost next = blocks@.take(k + 1);
        proof {
            assert(forall|w: int| 0 <= w < k ==> next[w] == done[w]);
            assert(next[k as int] == b);
        }
        if b >= BLOCK_COUNT {
            proof {
                assert(blocks@[k as int] >= 25);
            }
            return None;
        }
        if seen[b] {
            proof {
                let w = choose|w: int| 0 <= w < done.len() && #[trigger] done[w] == b;
                assert(blocks@[w] == blocks@[k as int]);
            }
            return None;
        }
        proof {
            assert(!lists(done, b as int));
            assert(amount * k + amount == amount * (k + 1)) by (nonlinear_arith);
            assert(amount * (k + 1) <= amount * n) by (nonlinear_arith)
                requires
                    k + 1 <= n,
            ;
        }
        let deployed = match post.deployed[b].checked_add(amount) {
            Some(x) => x,
            None => {
                proof {
                    assert(blocks@[k as int] == b);
                }
                return None;
            },
        };
        let count = match post.count[b].checked_add(1) {
            Some(x) => x,
            None => {
                proof {
                    assert(blocks@[k as int] == b);
                }
                return None;
            },
        };
        let total = match post.total_deployed.checked_add(amount) {
            Some(x) => x,
            None => {
                return None;
            },
        };
        let ghost before = post;
        post.deployed[b] = deployed;
        post.count[b] = count;
        post.total_deployed = total;
        seen[b] = true;
        proof {
            assert forall|i: int| 0 <= i < 25 implies seen[i] == lists(next, i) by {
                if lists(done, i) {
                    let w = choose|w: int| 0 <= w < done.len() && #[trigger] done[w] == i;
                    assert(next[w] == i);
                }
                if lists(next, i) {
                    let w = choose|w: int| 0 <= w < next.len() && #[trigger] next[w] == i;
                    if w < k {
                        assert(done[w] == i);
                    }
                }
            }
            assert forall|i: int| 0 <= i < 25 implies #[trigger] post.deployed[i]
                == round.deployed[i] + added(next, i, amount as int) by {
                assert(before.deployed[i] == round.deployed[i] + added(done, i, amount as int));
            }
            assert forall|i: int| 0 <= i < 25 implies #[trigger] post.count[i] == round.count[i]
                + added(next, i, 1) by {
                assert(before.count[i] == round.count[i] + added(done, i, 1));
            }
            assert(distinct_blocks(next)) by {
                assert forall|a: int, c: int| 0 <= a < c < next.len() implies next[a]
                    != next[c] by {
                    if c < k {
                        assert(done[a] != done[c]);
                    } else {
                        assert(done[a] == next[a]);
                    }
                }
            }
            assert(deploy_fits(*round, next, amount)) by {
                assert forall|w: int| 0 <= w < next.len() && #[trigger] next[w] < 25 implies {
                    &&& round.deployed[next[w] as int] + amount <= u64::MAX
                    &&& round.count[next[w] as int] + 1 <= u64::MAX
                } by {
                    if w < k {
                        assert(done[w] == next[w]);
                    }
                }
            }
        }
        k = k + 1;
    }
    proof {
        assert(blocks@.take(n as int) =~= blocks@);
    }
    Some(post)
}

/// A deploy that was applied to listed board indices is accepted by the
/// round comparison.
pub proof fn lemma_applied_deploy_is_accepted(
    pre: Round,
    post: Round,
    blocks: Seq<usize>,
    amount: u64,
)
    requires
        forall|k: int| 0 <= k < blocks.len() ==> #[trigger] blocks[k] < 25,
        deploy_applied(pre, post, blocks, amount),
    ensures
        deploy_recorded(pre, post, blocks, amount),
        round_violation(pre, post, blocks, amount) is None,
{
    assert forall|k: int| 0 <= k < blocks.len() implies {
        &&& #[trigger] blocks[k] < 25
        &&& post.deployed[blocks[k] as int] == pre.deployed[blocks[k] as int] + amount
        &&& post.count[blocks[k] as int] == pre.count[blocks[k] as int] + 1
    } by {
        assert(lists(blocks, blocks[k] as int));
    }
    lemma_round_accepts_recorded(pre, post, blocks, amount);
}

/// A first deploy to a round in which nothing is deployed yet leaves
/// `amount` and one deposit on each listed block, and `amount` for each
/// listed block in the total.
pub proof fn lemma_first_deploy(pre: Round, post: Round, blocks: Seq<usize>, amount: u64)
    requires
        forall|i: int| 0 <= i < 25 ==> pre.deployed[i] == 0 && pre.count[i] == 0,
        pre.total_deployed == 0,
        forall|k: int| 0 <= k < blocks.len() ==> #[trigger] blocks[k] < 25,
        deploy_applied(pre, post, blocks, amount),
    ensures
        forall|k: int|
            0 <= k < blocks.len() ==> post.deployed[#[trigger] blocks[k] as int] == amount
                && post.count[blocks[k] as int] == 1,
        post.total_deployed == amount * blocks.len(),
        round_violation(pre, post, blocks, amount) is None,
{
    lemma_applied_deploy_is_accepted(pre, post, blocks, amount);
}

/// Number of indices below `n` that `blocks` lists.
pub open spec fn listed_below(blocks: Seq<usize>, n: nat) -> nat
    decreases n,
{
    if n == 0 {
        0
    } else {
        listed_below(blocks, (n - 1) as nat) + added(blocks, n - 1, 1) as nat
    }
}

proof fn lemma_listed_below_push(front: Seq<usize>, last: usize, n: nat)
    requires
        !lists(front, last as int),
    ensures
        listed_below(front.push(last), n) == listed_below(front, n) + if last < n {
            1nat
        } else {
            0nat
        },
    decreases n,
{
    if n > 0 {
        lemma_listed_below_push(front, last, (n - 1) as nat);
        let all = front.push(last);
        if lists(front, n - 1) {
            let w = choose|w: int| 0 <= w < front.len() && #[trigger] front[w] == n - 1;
            assert(all[w] == n - 1);
        }
        if lists(all, n - 1) {
            let w = choose|w: int| 0 <= w < all.len() && #[trigger] all[w] == n - 1;
            if w < front.len() {
                assert(front[w] == n - 1);
            }
        }
        if last == n - 1 {
            assert(all[front.len() as int] == n - 1);
        }
    }
}

proof fn lemma_listed_below_empty(blocks: Seq<usize>, n: nat)
    requires
        blocks.len() == 0,
    ensures
        listed_below(blocks, n) == 0,
    decreases n,
{
    if n > 0 {
        lemma_listed_below_empty(blocks, (n - 1) as nat);
    }
}

/// A list of distinct board indices lists as many indices as it is long.
pub proof fn lemma_listed_below_distinct(blocks: Seq<usize>)
    requires
        distinct_blocks(blocks),
    ensures
        listed_below(blocks, 25) == blocks.len(),
    decreases blocks.len(),
{
    if blocks.len() == 0 {
        lemma_listed_below_empty(blocks, 25);
    } else {
        let front = blocks.drop_last();
        let last = blocks.last();
        assert(forall|k: int| 0 <= k < front.len() ==> front[k] == blocks[k]);
        assert(distinct_blocks(front));
        lemma_listed_below_distinct(front);
        assert(!lists(front, last as int)) by {
            if lists(front, last as int) {
                let w = choose|w: int| 0 <= w < front.len() && #[trigger] front[w] == last;
                assert(blocks[w] != blocks[blocks.len() - 1]);
            }
        }
        assert(blocks[blocks.len() - 1] < 25);
        lemma_listed_below_push(front, last, 25);
        assert(front.push(last) =~= blocks);
    }
}

proof fn lemma_sum_after_deploy(
    pre: Seq<u64>,
    post: Seq<u64>,
    blocks: Seq<usize>,
    amount: u64,
    n: nat,
)
    requires
        n <= pre.len(),
        pre.len() == post.len(),
        forall|i: int| 0 <= i < n ==> #[trigger] post[i] == pre[i] + added(blocks, i, amount as int),
    ensures
        sum_amounts(post.take(n as int)) == sum_amounts(pre.take(n as int)) + amount * listed_below(
            blocks,
            n,
        ),
    decreases n,
{
    if n > 0 {
        lemma_sum_after_deploy(pre, post, blocks, amount, (n - 1) as nat);
        assert(pre.take(n as int).drop_last() =~= pre.take(n - 1));
        assert(post.take(n as int).drop_last() =~= post.take(n - 1));
        assert(post[n - 1] == pre[n - 1] + added(blocks, n - 1, amount as int));
        let c = listed_below(blocks, (n - 1) as nat);
        assert(amount * (c + 1) == amount * c + amount) by (nonlinear_arith);
    } else {
        assert(pre.take(0).len() == 0);
        assert(post.take(0).len() == 0);
        assert(amount * 0 == 0);
    }
}

/// A deploy to distinct board indices keeps a consistent round consistent.
pub proof fn lemma_deploy_keeps_consistency(
    pre: Round,
    post: Round,
    blocks: Seq<usize>,
    amount: u64,
)
    requires
        pre.consistent(),
        distinct_blocks(blocks),
        deploy_applied(pre, post, blocks, amount),
    ensures
        post.consistent(),
{
    lemma_sum_after_deploy(pre.deployed@, post.deployed@, blocks, amount, 25);
    lemma_listed_below_distinct(blocks);
    assert(pre.deployed@.take(25) =~= pre.deployed@);
    assert(post.deployed@.take(25) =~= post.deployed@);
    assert forall|i: int| 0 <= i < 25 && post.deployed[i] > 0 implies post.count[i] > 0 by {
        assert(post.count[i] == pre.count[i] + added(blocks, i, 1));
        assert(post.deployed[i] == pre.deployed[i] + added(blocks, i, amount as int));
    }
}

} // verus!
