//! Selections of blocks: as lists of indices, as one flag per block, and as
//! a bit mask in which bit `i` stands for block `i`.

use vstd::prelude::*;
use crate::state::{Round, BLOCK_COUNT};

verus! {

/// The indices below `n` that satisfy `pred`, in ascending order.
pub open spec fn indices_where(pred: spec_fn(int) -> bool, n: nat) -> Seq<usize>
    decreases n,
{
    if n == 0 {
        Seq::empty()
    } else {
        let front = indices_where(pred, (n - 1) as nat);
        if pred(n - 1) {
            front.push((n - 1) as usize)
        } else {
            front
        }
    }
}

/// `s` lists its indices in strictly ascending order.
pub open spec fn strictly_ascending(s: Seq<usize>) -> bool {
    forall|a: int, b: int| 0 <= a < b < s.len() ==> s[a] < s[b]
}

/// `blocks` lists the index `i`.
pub open spec fn lists(blocks: Seq<usize>, i: int) -> bool {
    exists|k: int| 0 <= k < blocks.len() && #[trigger] blocks[k] == i
}

/// Bit `i` of `mask` is set.
pub open spec fn bit_set(mask: u32, i: u32) -> bool {
    (mask >> i) & 1 == 1
}

/// The mask whose bit `i` is set exactly for the `i` below `n` that satisfy
/// `selected`.
pub open spec fn mask_of(selected: spec_fn(int) -> bool, n: nat) -> u32
    decreases n,
{
    if n == 0 {
        0
    } else {
        let rest = mask_of(selected, (n - 1) as nat);
        if selected(n - 1) {
            rest | (1u32 << ((n - 1) as u32))
        } else {
            rest
        }
    }
}

/// The mask of a list of blocks: bit `i` is set exactly when `i` is on the
/// board and listed. Indices off the board leave no trace.
pub open spec fn block_mask(blocks: Seq<usize>) -> u32 {
    mask_of(|i: int| lists(blocks, i), 25)
}

/// The blocks of a mask: the board indices whose bit is set, ascending.
pub open spec fn mask_blocks(mask: u32) -> Seq<usize> {
    indices_where(|i: int| 0 <= i < 32 && bit_set(mask, i as u32), 25)
}

/// The blocks of `round` that hold less than `threshold`, ascending.
pub open spec fn available_blocks(round: Round, threshold: u64) -> Seq<usize> {
    indices_where(|i: int| 0 <= i < 25 && round.deployed[i] < threshold, 25)
}

/// `indices_where` holds exactly the indices below `n` that satisfy `pred`,
/// each once, in strictly ascending order.
pub proof fn lemma_indices_where(pred: spec_fn(int) -> bool, n: nat)
    requires
        n <= usize::MAX,
    ensures
        indices_where(pred, n).len() <= n,
        strictly_ascending(indices_where(pred, n)),
        forall|k: int|
            0 <= k < indices_where(pred, n).len() ==> (#[trigger] indices_where(pred, n)[k]) < n
                && pred(indices_where(pred, n)[k] as int),
        forall|i: int| #[trigger] lists(indices_where(pred, n), i) <==> 0 <= i < n && pred(i),
    decreases n,
{
    let all = indices_where(pred, n);
    if n > 0 {
        let front = indices_where(pred, (n - 1) as nat);
        lemma_indices_where(pred, (n - 1) as nat);
        assert forall|i: int| 0 <= i < n && pred(i) implies #[trigger] lists(all, i) by {
            if i < n - 1 {
                assert(lists(front, i));
                let k = choose|k: int| 0 <= k < front.len() && #[trigger] front[k] == i;
                assert(all[k] == i);
            } else {
                assert(all[all.len() - 1] == i);
            }
        }
    }
    assert forall|i: int| #[trigger] lists(all, i) implies 0 <= i < n && pred(i) by {
        let k = choose|k: int| 0 <= k < all.len() && #[trigger] all[k] == i;
        assert(all[k] < n && pred(all[k] as int));
    }
}

/// `indices_where` looks at `pred` below `n` only.
pub proof fn lemma_indices_where_agree(
    p: spec_fn(int) -> bool,
    q: spec_fn(int) -> bool,
    n: nat,
)
    requires
        forall|i: int| 0 <= i < n ==> #[trigger] p(i) == q(i),
    ensures
        indices_where(p, n) == indices_where(q, n),
    decreases n,
{
    if n > 0 {
        lemma_indices_where_agree(p, q, (n - 1) as nat);
    }
}

/// Enumerating what a strictly ascending list of indices below `n` lists
/// gives the list back.
pub proof fn lemma_indices_where_of_ascending(s: Seq<usize>, n: nat)
    requires
        strictly_ascending(s),
        forall|k: int| 0 <= k < s.len() ==> s[k] < n,
    ensures
        indices_where(|i: int| lists(s, i), n) == s,
    decreases n,
{
    let pred = |i: int| lists(s, i);
    if n == 0 {
        assert(s.len() == 0) by {
            if s.len() > 0 {
                assert(s[0] < n);
            }
        }
        assert(indices_where(pred, n) =~= s);
    } else if s.len() > 0 && s.last() == n - 1 {
        let front = s.drop_last();
        assert forall|k: int| 0 <= k < front.len() implies front[k] < n - 1 by {
            assert(front[k] == s[k]);
            assert(s[k] < s[s.len() - 1]);
        }
        assert(strictly_ascending(front)) by {
            assert forall|a: int, b: int| 0 <= a < b < front.len() implies front[a] < front[b] by {
                assert(front[a] == s[a] && front[b] == s[b]);
            }
        }
        lemma_indices_where_of_ascending(front, (n - 1) as nat);
        let pred_front = |i: int| lists(front, i);
        assert forall|i: int| 0 <= i < n - 1 implies #[trigger] pred(i) == pred_front(i) by {
            if lists(s, i) {
                let k = choose|k: int| 0 <= k < s.len() && #[trigger] s[k] == i;
                assert(k < s.len() - 1);
                assert(front[k] == i);
            }
            if lists(front, i) {
                let k = choose|k: int| 0 <= k < front.len() && #[trigger] front[k] == i;
                assert(s[k] == i);
            }
        }
        lemma_indices_where_agree(pred, pred_front, (n - 1) as nat);
        assert(s[s.len() - 1] == n - 1);
        assert(pred(n - 1));
        assert(front.push((n - 1) as usize) =~= s);
    } else {
        assert forall|k: int| 0 <= k < s.len() implies s[k] < n - 1 by {
            if s[k] == n - 1 {
                if k < s.len() - 1 {
                    assert(s[k] < s[s.len() - 1]);
                    assert(s[s.len() - 1] < n);
                }
            }
        }
        lemma_indices_where_of_ascending(s, (n - 1) as nat);
        assert(!pred(n - 1)) by {
            if lists(s, n - 1) {
                let k = choose|k: int| 0 <= k < s.len() && #[trigger] s[k] == n - 1;
                assert(s[k] < n - 1);
            }
        }
    }
}

proof fn lemma_bit_of_zero(i: u32)
    by (bit_vector)
    requires
        i < 32,
    ensures
        !bit_set(0u32, i),
{
}

proof fn lemma_bit_after_or(mask: u32, j: u32, i: u32)
    by (bit_vector)
    requires
        i < 32,
        j < 32,
    ensures
        bit_set(mask | (1u32 << j), i) == (bit_set(mask, i) || i == j),
{
}

proof fn lemma_bit_test(mask: u32, i: u32)
    by (bit_vector)
    requires
        i < 32,
    ensures
        (mask & (1u32 << i) != 0) == bit_set(mask, i),
{
}

/// Bit `i` of `mask_of(selected, n)` is set exactly when `i` is below `n` and
/// selected.
pub proof fn lemma_mask_of_bits(selected: spec_fn(int) -> bool, n: nat, i: u32)
    requires
        n <= 32,
        i < 32,
    ensures
        bit_set(mask_of(selected, n), i) == (i < n && selected(i as int)),
    decreases n,
{
    if n == 0 {
        lemma_bit_of_zero(i);
    } else {
        lemma_mask_of_bits(selected, (n - 1) as nat, i);
        if selected(n - 1) {
            lemma_bit_after_or(mask_of(selected, (n - 1) as nat), (n - 1) as u32, i);
        }
    }
}

/// Decoding the mask of a list of blocks gives the listed board indices in
/// strictly ascending order: each once, and none that is off the board or
/// not listed.
pub proof fn lemma_mask_round_trip(blocks: Seq<usize>)
    ensures
        mask_blocks(block_mask(blocks)) == indices_where(|i: int| lists(blocks, i), 25),
        strictly_ascending(mask_blocks(block_mask(blocks))),
        forall|i: int| #[trigger]
            lists(mask_blocks(block_mask(blocks)), i) <==> 0 <= i < 25 && lists(blocks, i),
{
    let mask = block_mask(blocks);
    let p = |i: int| 0 <= i < 32 && bit_set(mask, i as u32);
    let q = |i: int| lists(blocks, i);
    assert forall|i: int| 0 <= i < 25 implies #[trigger] p(i) == q(i) by {
        lemma_mask_of_bits(q, 25, i as u32);
    }
    lemma_indices_where_agree(p, q, 25);
    lemma_indices_where(q, 25);
}

/// Decoding the mask of a strictly ascending list of board indices gives the
/// list back.
pub proof fn lemma_mask_round_trip_ascending(blocks: Seq<usize>)
    requires
        strictly_ascending(blocks),
        forall|k: int| 0 <= k < blocks.len() ==> blocks[k] < 25,
    ensures
        mask_blocks(block_mask(blocks)) == blocks,
{
    lemma_mask_round_trip(blocks);
    lemma_indices_where_of_ascending(blocks, 25);
}

/// A mask built from board indices has no bit set above the board.
pub proof fn lemma_block_mask_bound(blocks: Seq<usize>)
    ensures
        forall|i: u32| 25 <= i < 32 ==> !#[trigger] bit_set(block_mask(blocks), i),
{
    assert forall|i: u32| 25 <= i < 32 implies !#[trigger] bit_set(block_mask(blocks), i) by {
        lemma_mask_of_bits(|i: int| lists(blocks, i), 25, i);
    }
}

/// One flag per block: the flag of block `i` says whether `blocks` lists
/// `i`. Indices off the board are ignored.
pub fn select_squares(blocks: &[usize]) -> (squares: [bool; 25])
    ensures
        forall|i: int| 0 <= i < 25 ==> squares[i] == lists(blocks@, i),
{
    let mut squares: [bool; 25] = [false; 25];
    let n: usize = blocks.len();
    let mut k: usize = 0;
    while k < n
        invariant
            k <= n,
            n == blocks@.len(),
            forall|i: int| 0 <= i < 25 ==> squares[i] == lists(blocks@.take(k as int), i),
        decreases n - k,
    {
        let b: usize = blocks[k];
        let ghost before = squares;
        if b < BLOCK_COUNT {
            squares[b] = true;
        }
        proof {
            let old_list = blocks@.take(k as int);
            let new_list = blocks@.take(k + 1);
            assert forall|i: int| 0 <= i < 25 implies squares[i] == lists(new_list, i) by {
                if lists(old_list, i) {
                    let w = choose|w: int| 0 <= w < old_list.len() && #[trigger] old_list[w] == i;
                    assert(new_list[w] == i);
                }
                if lists(new_list, i) {
                    let w = choose|w: int| 0 <= w < new_list.len() && #[trigger] new_list[w] == i;
                    if w < k {
                        assert(old_list[w] == i);
                    }
                }
                if b == i {
                    assert(new_list[k as int] == i);
                }
                assert(before[i] == lists(old_list, i));
            }
        }
        k = k + 1;
    }
    proof {
        assert(blocks@.take(n as int) =~= blocks@);
    }
    squares
}

/// Packs one flag per block into a mask: bit `i` is the flag of block `i`.
pub fn pack_squares(squares: &[bool; 25]) -> (mask: u32)
    ensures
        mask == mask_of(|i: int| 0 <= i < 25 && squares[i], 25),
{
    let ghost selected = |i: int| 0 <= i < 25 && squares[i];
    let mut mask: u32 = 0;
    let mut i: usize = 0;
    while i < 25
        invariant
            i <= 25,
            selected == (|i: int| 0 <= i < 25 && squares[i]),
            mask == mask_of(selected, i as nat),
        decreases 25 - i,
    {
        if squares[i] {
            mask = mask | (1u32 << (i as u32));
        }
        i = i + 1;
    }
    mask
}

/// The mask of a list of blocks.
pub fn encode_mask(blocks: &[usize]) -> (mask: u32)
    ensures
        mask == block_mask(blocks@),
{
    let squares = select_squares(blocks);
    let mask = pack_squares(&squares);
    proof {
        lemma_mask_of_agree(
            |i: int| 0 <= i < 25 && squares[i],
            |i: int| lists(blocks@, i),
            25,
        );
    }
    mask
}

/// `mask_of` looks at `selected` below `n` only.
pub proof fn lemma_mask_of_agree(p: spec_fn(int) -> bool, q: spec_fn(int) -> bool, n: nat)
    requires
        forall|i: int| 0 <= i < n ==> #[trigger] p(i) == q(i),
    ensures
        mask_of(p, n) == mask_of(q, n),
    decreases n,
{
    if n > 0 {
        lemma_mask_of_agree(p, q, (n - 1) as nat);
    }
}

/// The blocks of a mask, ascending.
pub fn decode_mask(mask: u32) -> (blocks: Vec<usize>)
    ensures
        blocks@ == mask_blocks(mask),
{
    let ghost pred = |i: int| 0 <= i < 32 && bit_set(mask, i as u32);
    let mut blocks: Vec<usize> = Vec::new();
    let mut i: usize = 0;
    while i < 25
        invariant
            i <= 25,
            pred == (|i: int| 0 <= i < 32 && bit_set(mask, i as u32)),
            blocks@ == indices_where(pred, i as nat),
        decreases 25 - i,
    {
        proof {
            lemma_bit_test(mask, i as u32);
        }
        if mask & (1u32 << (i as u32)) != 0 {
            blocks.push(i);
        }
        i = i + 1;
    }
    blocks
}

/// The blocks of `round` whose deployed amount is below `threshold`, in
/// ascending order. `threshold` is in the unit of `deployed`.
pub fn get_available_blocks(round: &Round, threshold: u64) -> (blocks: Vec<usize>)
    ensures
        blocks@ == available_blocks(*round, threshold),
{
    let ghost pred = |i: int| 0 <= i < 25 && round.deployed[i] < threshold;
    let mut blocks: Vec<usize> = Vec::new();
    let mut i: usize = 0;
    while i < 25
        invariant
            i <= 25,
            pred == (|i: int| 0 <= i < 25 && round.deployed[i] < threshold),
            blocks@ == indices_where(pred, i as nat),
        decreases 25 - i,
    {
        if round.deployed[i] < threshold {
            blocks.push(i);
        }
        i = i + 1;
    }
    blocks
}

/// The available blocks are exactly the board indices under the threshold,
/// each once, in strictly ascending order.
pub proof fn lemma_available_blocks(round: Round, threshold: u64)
    ensures
        available_blocks(round, threshold).len() <= 25,
        strictly_ascending(available_blocks(round, threshold)),
        forall|i: int| #[trigger]
            lists(available_blocks(round, threshold), i) <==> 0 <= i < 25 && round.deployed[i]
                < threshold,
{
    lemma_indices_where(|i: int| 0 <= i < 25 && round.deployed[i] < threshold, 25);
}

/// Raising the threshold never removes a block from the available ones.
pub proof fn lemma_available_blocks_monotonic(round: Round, low: u64, high: u64)
    requires
        low <= high,
    ensures
        forall|i: int|
            lists(available_blocks(round, low), i) ==> lists(available_blocks(round, high), i),
{
    lemma_available_blocks(round, low);
    lemma_available_blocks(round, high);
}

/// With a threshold of zero no block is available.
pub proof fn lemma_available_blocks_none(round: Round)
    ensures
        available_blocks(round, 0).len() == 0,
{
    lemma_available_blocks(round, 0);
    let found = available_blocks(round, 0);
    if found.len() > 0 {
        assert(lists(found, found[0] as int));
    }
}

/// With a threshold above every deployed amount all blocks are available.
pub proof fn lemma_available_blocks_all(round: Round, threshold: u64)
    requires
        forall|i: int| 0 <= i < 25 ==> round.deployed[i] < threshold,
    ensures
        available_blocks(round, threshold) == Seq::new(25, |i: int| i as usize),
{
    let pred = |i: int| 0 <= i < 25 && round.deployed[i] < threshold;
    lemma_indices_where_all(pred, 25);
}

/// Where `pred` holds of every index below `n`, all of them are enumerated.
pub proof fn lemma_indices_where_all(pred: spec_fn(int) -> bool, n: nat)
    requires
        forall|i: int| 0 <= i < n ==> #[trigger] pred(i),
    ensures
        indices_where(pred, n) == Seq::new(n, |i: int| i as usize),
    decreases n,
{
    if n > 0 {
        lemma_indices_where_all(pred, (n - 1) as nat);
        assert(pred(n - 1));
        assert(Seq::new((n - 1) as nat, |i: int| i as usize).push((n - 1) as usize) =~= Seq::new(
            n,
            |i: int| i as usize,
        ));
    } else {
        assert(indices_where(pred, n) =~= Seq::new(n, |i: int| i as usize));
    }
}

} // verus!
