//! The byte layout of the ledger records.
//!
//! A record is one discriminant byte that tells its kind, followed by its
//! fields in the order of their declaration, each in its fixed width:
//! integers in eight bytes least significant first, addresses and hashes as
//! they are, an array of per-block amounts as 25 integers in a row. There is
//! no padding and no field of variable length, so a record of a kind always
//! has the same number of bytes.

use vstd::prelude::*;
use crate::bytes::{
    get_i64_le, get_le, i64_bits, le_bytes, lemma_i64_bits_injective, lemma_le_bytes_injective,
    lemma_le_bytes_len, lemma_pow256_values, put_bytes, put_i64_le, put_le,
};
use crate::state::{Board, Config, Miner, Round};

verus! {

/// Discriminant byte of a config record.
pub const CONFIG_DISCRIMINANT: u8 = 101;

/// Discriminant byte of a miner record.
pub const MINER_DISCRIMINANT: u8 = 103;

/// Discriminant byte of a board record.
pub const BOARD_DISCRIMINANT: u8 = 105;

/// Discriminant byte of a round record.
pub const ROUND_DISCRIMINANT: u8 = 109;

/// Number of bytes of a board record.
pub const BOARD_LEN: usize = 25;

/// Number of bytes of a round record.
pub const ROUND_LEN: usize = 553;

/// Number of bytes of a miner record.
pub const MINER_LEN: usize = 529;

/// Number of bytes of a config record.
pub const CONFIG_LEN: usize = 225;

/// Why bytes are no record of the kind asked for.
#[derive(Clone, Copy, Debug, PartialEq, Eq)]
pub enum DecodeError {
    /// The number of bytes is not that of the kind's layout.
    WrongSize,
    /// The leading byte is not the kind's discriminant.
    WrongDiscriminant,
}

/// An unsigned field on the wire.
pub open spec fn u64_le(x: u64) -> Seq<u8> {
    le_bytes(x as nat, 8)
}

/// A signed field on the wire.
pub open spec fn i64_le(x: i64) -> Seq<u8> {
    le_bytes(i64_bits(x), 8)
}

/// A row of amounts on the wire: one after the other.
pub open spec fn amounts_le(a: Seq<u64>) -> Seq<u8>
    decreases a.len(),
{
    if a.len() == 0 {
        Seq::empty()
    } else {
        amounts_le(a.drop_last()) + u64_le(a.last())
    }
}

impl Board {
    /// The bytes of the record.
    pub open spec fn encoding(self) -> Seq<u8> {
        seq![BOARD_DISCRIMINANT] + u64_le(self.round_id) + u64_le(self.start_slot) + u64_le(
            self.end_slot,
        )
    }
}

impl Round {
    /// The bytes of the record.
    pub open spec fn encoding(self) -> Seq<u8> {
        seq![ROUND_DISCRIMINANT] + u64_le(self.id) + amounts_le(self.deployed@) + amounts_le(
            self.count@,
        ) + self.slot_hash@ + u64_le(self.expires_at) + u64_le(self.motherlode)
            + self.rent_payer@ + self.top_miner@ + u64_le(self.top_miner_reward) + u64_le(
            self.total_deployed,
        ) + u64_le(self.total_vaulted) + u64_le(self.total_winnings)
    }
}

impl Miner {
    /// The bytes of the record.
    pub open spec fn encoding(self) -> Seq<u8> {
        seq![MINER_DISCRIMINANT] + self.authority@ + amounts_le(self.deployed@) + amounts_le(
            self.cumulative@,
        ) + u64_le(self.checkpoint_fee) + u64_le(self.checkpoint_id) + i64_le(
            self.last_claim_ore_at,
        ) + i64_le(self.last_claim_sol_at) + self.rewards_factor@ + u64_le(self.rewards_ore)
            + u64_le(self.rewards_sol) + u64_le(self.refined_ore) + u64_le(self.round_id) + u64_le(
            self.lifetime_rewards_ore,
        ) + u64_le(self.lifetime_rewards_sol)
    }
}

impl Config {
    /// The bytes of the record.
    pub open spec fn encoding(self) -> Seq<u8> {
        seq![CONFIG_DISCRIMINANT] + self.admin_authority@ + self.admin_fee_collector@ + u64_le(
            self.admin_fee_rate,
        ) + self.authority@ + self.fee_collector@ + u64_le(self.fee_rate) + u64_le(
            self.intermission_slots,
        ) + u64_le(self.round_slots) + self.entropy_var_address@ + self.entropy_program_id@
    }
}

/// What parsing `data` as a record of `len` bytes and discriminant `tag`
/// returns, where `encoding` gives the bytes of a record: the size is looked
/// at first, then the discriminant, and bytes that pass both are the bytes of
/// the record returned.
pub open spec fn parsed<R>(
    r: Result<R, DecodeError>,
    data: Seq<u8>,
    len: usize,
    tag: u8,
    encoding: spec_fn(R) -> Seq<u8>,
) -> bool {
    if data.len() != len {
        r == Err::<R, DecodeError>(DecodeError::WrongSize)
    } else if data[0] != tag {
        r == Err::<R, DecodeError>(DecodeError::WrongDiscriminant)
    } else {
        r matches Ok(record) && encoding(record) == data
    }
}

/// A row of `n` amounts takes `8 * n` bytes.
pub proof fn lemma_amounts_le_len(a: Seq<u64>)
    ensures
        amounts_le(a).len() == 8 * a.len(),
    decreases a.len(),
{
    if a.len() > 0 {
        lemma_amounts_le_len(a.drop_last());
        lemma_le_bytes_len(a.last() as nat, 8);
    }
}

/// Two byte strings that end in parts of the same length are equal only if
/// the parts and what stands before them are.
pub proof fn lemma_split_last(a1: Seq<u8>, b1: Seq<u8>, a2: Seq<u8>, b2: Seq<u8>)
    requires
        b1.len() == b2.len(),
        a1 + b1 == a2 + b2,
    ensures
        a1 == a2,
        b1 == b2,
{
    let whole = a1 + b1;
    assert((a1 + b1).len() == a1.len() + b1.len());
    assert((a2 + b2).len() == a2.len() + b2.len());
    assert(a1 =~= whole.subrange(0, a1.len() as int));
    assert(a2 =~= whole.subrange(0, a2.len() as int));
    assert(b1 =~= whole.subrange(a1.len() as int, whole.len() as int));
    assert(b2 =~= whole.subrange(a2.len() as int, whole.len() as int));
}

/// Two unsigned fields with the same bytes are equal.
pub proof fn lemma_u64_le_injective(x: u64, y: u64)
    requires
        u64_le(x) == u64_le(y),
    ensures
        x == y,
{
    lemma_pow256_values();
    lemma_le_bytes_injective(x as nat, y as nat, 8);
}

/// Two signed fields with the same bytes are equal.
pub proof fn lemma_i64_le_injective(x: i64, y: i64)
    requires
        i64_le(x) == i64_le(y),
    ensures
        x == y,
{
    lemma_pow256_values();
    lemma_le_bytes_injective(i64_bits(x), i64_bits(y), 8);
    lemma_i64_bits_injective(x, y);
}

/// Two rows of as many amounts with the same bytes are equal.
pub proof fn lemma_amounts_le_injective(a: Seq<u64>, b: Seq<u64>)
    requires
        a.len() == b.len(),
        amounts_le(a) == amounts_le(b),
    ensures
        a == b,
    decreases a.len(),
{
    if a.len() > 0 {
        lemma_le_bytes_len(a.last() as nat, 8);
        lemma_le_bytes_len(b.last() as nat, 8);
        lemma_split_last(
            amounts_le(a.drop_last()),
            u64_le(a.last()),
            amounts_le(b.drop_last()),
            u64_le(b.last()),
        );
        lemma_amounts_le_injective(a.drop_last(), b.drop_last());
        lemma_u64_le_injective(a.last(), b.last());
        assert(a =~= a.drop_last().push(a.last()));
        assert(b =~= b.drop_last().push(b.last()));
    } else {
        assert(a =~= b);
    }
}

/// Two byte strings that end in an unsigned field are equal only if the
/// fields and what stands before them are.
pub proof fn lemma_split_u64(a: Seq<u8>, x: u64, b: Seq<u8>, y: u64)
    requires
        a + u64_le(x) == b + u64_le(y),
    ensures
        a == b,
        x == y,
{
    lemma_le_bytes_len(x as nat, 8);
    lemma_le_bytes_len(y as nat, 8);
    lemma_split_last(a, u64_le(x), b, u64_le(y));
    lemma_u64_le_injective(x, y);
}

/// Two byte strings that end in a signed field are equal only if the fields
/// and what stands before them are.
pub proof fn lemma_split_i64(a: Seq<u8>, x: i64, b: Seq<u8>, y: i64)
    requires
        a + i64_le(x) == b + i64_le(y),
    ensures
        a == b,
        x == y,
{
    lemma_le_bytes_len(i64_bits(x), 8);
    lemma_le_bytes_len(i64_bits(y), 8);
    lemma_split_last(a, i64_le(x), b, i64_le(y));
    lemma_i64_le_injective(x, y);
}

/// Two byte strings that end in a row of per-block amounts are equal only if
/// the rows and what stands before them are.
pub proof fn lemma_split_amounts(a: Seq<u8>, x: [u64; 25], b: Seq<u8>, y: [u64; 25])
    requires
        a + amounts_le(x@) == b + amounts_le(y@),
    ensures
        a == b,
        x == y,
{
    lemma_amounts_le_len(x@);
    lemma_amounts_le_len(y@);
    lemma_split_last(a, amounts_le(x@), b, amounts_le(y@));
    lemma_amounts_le_injective(x@, y@);
    assert(x =~= y);
}

/// Two byte strings that end in as many raw bytes are equal only if those
/// bytes and what stands before them are.
pub proof fn lemma_split_array<const N: usize>(a: Seq<u8>, x: [u8; N], b: Seq<u8>, y: [u8; N])
    requires
        a + x@ == b + y@,
    ensures
        a == b,
        x == y,
{
    lemma_split_last(a, x@, b, y@);
    assert(x =~= y);
}

/// Appends a row of amounts to `out`.
pub(crate) fn put_amounts(out: &mut Vec<u8>, a: &[u64; 25])
    ensures
        final(out)@ == old(out)@ + amounts_le(a@),
{
    let mut k: usize = 0;
    while k < 25
        invariant
            k <= 25,
            out@ == old(out)@ + amounts_le(a@.take(k as int)),
        decreases 25 - k,
    {
        let ghost before = out@;
        put_le(out, a[k], 8);
        proof {
            assert(a@.take(k + 1).drop_last() =~= a@.take(k as int));
            assert(a@.take(k + 1).last() == a[k as int]);
            assert(out@ =~= old(out)@ + amounts_le(a@.take(k + 1)));
        }
        k = k + 1;
    }
    proof {
        assert(a@.take(25) =~= a@);
    }
}

/// The row of amounts that stands in `bytes` from `off` on.
pub(crate) fn get_amounts(bytes: &[u8], off: usize) -> (a: [u64; 25])
    requires
        off + 200 <= bytes@.len(),
    ensures
        amounts_le(a@) == bytes@.subrange(off as int, off + 200),
{
    let len: usize = bytes.len();
    let mut a: [u64; 25] = [0u64; 25];
    let mut k: usize = 0;
    while k < 25
        invariant
            k <= 25,
            off + 200 <= len,
            len == bytes@.len(),
            amounts_le(a@.take(k as int)) == bytes@.subrange(off as int, off + 8 * k),
        decreases 25 - k,
    {
        let ghost before = a@;
        let x: u64 = get_le(bytes, off + 8 * k, 8);
        a[k] = x;
        proof {
            assert(a@.take(k as int) =~= before.take(k as int));
            assert(a@.take(k + 1).drop_last() =~= a@.take(k as int));
            assert(a@.take(k + 1).last() == x);
            assert(bytes@.subrange(off as int, off + 8 * k) + bytes@.subrange(
                off + 8 * k,
                off + 8 * k + 8,
            ) =~= bytes@.subrange(off as int, off + 8 * (k + 1)));
        }
        k = k + 1;
    }
    proof {
        assert(a@.take(25) =~= a@);
    }
    a
}

/// The `N` bytes that stand in `bytes` from `off` on.
pub(crate) fn get_array<const N: usize>(bytes: &[u8], off: usize) -> (a: [u8; N])
    requires
        off + N <= bytes@.len(),
    ensures
        a@ == bytes@.subrange(off as int, off + N),
{
    let len: usize = bytes.len();
    let mut a: [u8; N] = [0u8; N];
    let mut k: usize = 0;
    while k < N
        invariant
            k <= N,
            off + N <= len,
            len == bytes@.len(),
            forall|j: int| 0 <= j < k ==> a@[j] == bytes@[off + j],
        decreases N - k,
    {
        a[k] = bytes[off + k];
        k = k + 1;
    }
    proof {
        assert(a@ =~= bytes@.subrange(off as int, off + N));
    }
    a
}

/// The bytes of a board record.
pub fn encode_board(board: &Board) -> (out: Vec<u8>)
    ensures
        out@ == board.encoding(),
        out@.len() == BOARD_LEN,
{
    let mut out: Vec<u8> = Vec::new();
    out.push(BOARD_DISCRIMINANT);
    put_le(&mut out, board.round_id, 8);
    put_le(&mut out, board.start_slot, 8);
    put_le(&mut out, board.end_slot, 8);
    proof {
        assert(out@ =~= board.encoding());
        lemma_board_encoding_len(*board);
    }
    out
}

/// Reads a board record.
pub fn parse_board(data: &[u8]) -> (r: Result<Board, DecodeError>)
    ensures
        parsed(r, data@, BOARD_LEN, BOARD_DISCRIMINANT, |x: Board| x.encoding()),
{
    if data.len() != BOARD_LEN {
        return Err(DecodeError::WrongSize);
    }
    if data[0] != BOARD_DISCRIMINANT {
        return Err(DecodeError::WrongDiscriminant);
    }
    let board = Board {
        round_id: get_le(data, 1, 8),
        start_slot: get_le(data, 9, 8),
        end_slot: get_le(data, 17, 8),
    };
    proof {
        assert(board.encoding() =~= data@);
    }
    Ok(board)
}

/// A board record takes `BOARD_LEN` bytes and starts with its discriminant.
pub proof fn lemma_board_encoding_len(board: Board)
    ensures
        board.encoding().len() == BOARD_LEN,
        board.encoding()[0] == BOARD_DISCRIMINANT,
{
    lemma_le_bytes_len(board.round_id as nat, 8);
    lemma_le_bytes_len(board.start_slot as nat, 8);
    lemma_le_bytes_len(board.end_slot as nat, 8);
}

/// Two board records with the same bytes are the same record.
pub proof fn lemma_board_encoding_injective(a: Board, b: Board)
    requires
        a.encoding() == b.encoding(),
    ensures
        a == b,
{
    let a0 = seq![BOARD_DISCRIMINANT];
    let a1 = a0 + u64_le(a.round_id);
    let a2 = a1 + u64_le(a.start_slot);
    let b0 = seq![BOARD_DISCRIMINANT];
    let b1 = b0 + u64_le(b.round_id);
    let b2 = b1 + u64_le(b.start_slot);
    lemma_split_u64(a2, a.end_slot, b2, b.end_slot);
    lemma_split_u64(a1, a.start_slot, b1, b.start_slot);
    lemma_split_u64(a0, a.round_id, b0, b.round_id);
}

/// Parsing the bytes of a board record gives the record back.
pub proof fn lemma_board_round_trip(board: Board, r: Result<Board, DecodeError>)
    requires
        parsed(r, board.encoding(), BOARD_LEN, BOARD_DISCRIMINANT, |x: Board| x.encoding()),
    ensures
        r == Ok::<Board, DecodeError>(board),
{
    lemma_board_encoding_len(board);
    lemma_board_encoding_injective(r->Ok_0, board);
}

/// The bytes of a round record.
pub fn encode_round(round: &Round) -> (out: Vec<u8>)
    ensures
        out@ == round.encoding(),
        out@.len() == ROUND_LEN,
{
    let mut out: Vec<u8> = Vec::new();
    out.push(ROUND_DISCRIMINANT);
    put_le(&mut out, round.id, 8);
    put_amounts(&mut out, &round.deployed);
    put_amounts(&mut out, &round.count);
    put_bytes(&mut out, round.slot_hash.as_slice());
    put_le(&mut out, round.expires_at, 8);
    put_le(&mut out, round.motherlode, 8);
    put_bytes(&mut out, round.rent_payer.as_slice());
    put_bytes(&mut out, round.top_miner.as_slice());
    put_le(&mut out, round.top_miner_reward, 8);
    put_le(&mut out, round.total_deployed, 8);
    put_le(&mut out, round.total_vaulted, 8);
    put_le(&mut out, round.total_winnings, 8);
    proof {
        assert(out@ =~= round.encoding());
        lemma_round_encoding_len(*round);
    }
    out
}

/// Reads a round record.
pub fn parse_round(data: &[u8]) -> (r: Result<Round, DecodeError>)
    ensures
        parsed(r, data@, ROUND_LEN, ROUND_DISCRIMINANT, |x: Round| x.encoding()),
{
    if data.len() != ROUND_LEN {
        return Err(DecodeError::WrongSize);
    }
    if data[0] != ROUND_DISCRIMINANT {
        return Err(DecodeError::WrongDiscriminant);
    }
    let round = Round {
        id: get_le(data, 1, 8),
        deployed: get_amounts(data, 9),
        count: get_amounts(data, 209),
        slot_hash: get_array::<32>(data, 409),
        expires_at: get_le(data, 441, 8),
        motherlode: get_le(data, 449, 8),
        rent_payer: get_array::<32>(data, 457),
        top_miner: get_array::<32>(data, 489),
        top_miner_reward: get_le(data, 521, 8),
        total_deployed: get_le(data, 529, 8),
        total_vaulted: get_le(data, 537, 8),
        total_winnings: get_le(data, 545, 8),
    };
    proof {
        assert(round.encoding() =~= data@);
    }
    Ok(round)
}

/// A round record takes `ROUND_LEN` bytes and starts with its discriminant.
pub proof fn lemma_round_encoding_len(round: Round)
    ensures
        round.encoding().len() == ROUND_LEN,
        round.encoding()[0] == ROUND_DISCRIMINANT,
{
    lemma_le_bytes_len(round.id as nat, 8);
    lemma_amounts_le_len(round.deployed@);
    lemma_amounts_le_len(round.count@);
    lemma_le_bytes_len(round.expires_at as nat, 8);
    lemma_le_bytes_len(round.motherlode as nat, 8);
    lemma_le_bytes_len(round.top_miner_reward as nat, 8);
    lemma_le_bytes_len(round.total_deployed as nat, 8);
    lemma_le_bytes_len(round.total_vaulted as nat, 8);
    lemma_le_bytes_len(round.total_winnings as nat, 8);
}

/// Two round records with the same bytes are the same record.
pub proof fn lemma_round_encoding_injective(a: Round, b: Round)
    requires
        a.encoding() == b.encoding(),
    ensures
        a == b,
{
    let a0 = seq![ROUND_DISCRIMINANT];
    let a1 = a0 + u64_le(a.id);
    let a2 = a1 + amounts_le(a.deployed@);
    let a3 = a2 + amounts_le(a.count@);
    let a4 = a3 + a.slot_hash@;
    let a5 = a4 + u64_le(a.expires_at);
    let a6 = a5 + u64_le(a.motherlode);
    let a7 = a6 + a.rent_payer@;
    let a8 = a7 + a.top_miner@;
    let a9 = a8 + u64_le(a.top_miner_reward);
    let a10 = a9 + u64_le(a.total_deployed);
    let a11 = a10 + u64_le(a.total_vaulted);
    let b0 = seq![ROUND_DISCRIMINANT];
    let b1 = b0 + u64_le(b.id);
    let b2 = b1 + amounts_le(b.deployed@);
    let b3 = b2 + amounts_le(b.count@);
    let b4 = b3 + b.slot_hash@;
    let b5 = b4 + u64_le(b.expires_at);
    let b6 = b5 + u64_le(b.motherlode);
    let b7 = b6 + b.rent_payer@;
    let b8 = b7 + b.top_miner@;
    let b9 = b8 + u64_le(b.top_miner_reward);
    let b10 = b9 + u64_le(b.total_deployed);
    let b11 = b10 + u64_le(b.total_vaulted);
    lemma_split_u64(a11, a.total_winnings, b11, b.total_winnings);
    lemma_split_u64(a10, a.total_vaulted, b10, b.total_vaulted);
    lemma_split_u64(a9, a.total_deployed, b9, b.total_deployed);
    lemma_split_u64(a8, a.top_miner_reward, b8, b.top_miner_reward);
    lemma_split_array(a7, a.top_miner, b7, b.top_miner);
    lemma_split_array(a6, a.rent_payer, b6, b.rent_payer);
    lemma_split_u64(a5, a.motherlode, b5, b.motherlode);
    lemma_split_u64(a4, a.expires_at, b4, b.expires_at);
    lemma_split_array(a3, a.slot_hash, b3, b.slot_hash);
    lemma_split_amounts(a2, a.count, b2, b.count);
    lemma_split_amounts(a1, a.deployed, b1, b.deployed);
    lemma_split_u64(a0, a.id, b0, b.id);
}

/// Parsing the bytes of a round record gives the record back.
pub proof fn lemma_round_round_trip(round: Round, r: Result<Round, DecodeError>)
    requires
        parsed(r, round.encoding(), ROUND_LEN, ROUND_DISCRIMINANT, |x: Round| x.encoding()),
    ensures
        r == Ok::<Round, DecodeError>(round),
{
    lemma_round_encoding_len(round);
    lemma_round_encoding_injective(r->Ok_0, round);
}

/// The bytes of a miner record.
pub fn encode_miner(miner: &Miner) -> (out: Vec<u8>)
    ensures
        out@ == miner.encoding(),
        out@.len() == MINER_LEN,
{
    let mut out: Vec<u8> = Vec::new();
    out.push(MINER_DISCRIMINANT);
    put_bytes(&mut out, miner.authority.as_slice());
    put_amounts(&mut out, &miner.deployed);
    put_amounts(&mut out, &miner.cumulative);
    put_le(&mut out, miner.checkpoint_fee, 8);
    put_le(&mut out, miner.checkpoint_id, 8);
    put_i64_le(&mut out, miner.last_claim_ore_at);
    put_i64_le(&mut out, miner.last_claim_sol_at);
    put_bytes(&mut out, miner.rewards_factor.as_slice());
    put_le(&mut out, miner.rewards_ore, 8);
    put_le(&mut out, miner.rewards_sol, 8);
    put_le(&mut out, miner.refined_ore, 8);
    put_le(&mut out, miner.round_id, 8);
    put_le(&mut out, miner.lifetime_rewards_ore, 8);
    put_le(&mut out, miner.lifetime_rewards_sol, 8);
    proof {
        assert(out@ =~= miner.encoding());
        lemma_miner_encoding_len(*miner);
    }
    out
}

/// Reads a miner record.
pub fn parse_miner(data: &[u8]) -> (r: Result<Miner, DecodeError>)
    ensures
        parsed(r, data@, MINER_LEN, MINER_DISCRIMINANT, |x: Miner| x.encoding()),
{
    if data.len() != MINER_LEN {
        return Err(DecodeError::WrongSize);
    }
    if data[0] != MINER_DISCRIMINANT {
        return Err(DecodeError::WrongDiscriminant);
    }
    let miner = Miner {
        authority: get_array::<32>(data, 1),
        deployed: get_amounts(data, 33),
        cumulative: get_amounts(data, 233),
        checkpoint_fee: get_le(data, 433, 8),
        checkpoint_id: get_le(data, 441, 8),
        last_claim_ore_at: get_i64_le(data, 449),
        last_claim_sol_at: get_i64_le(data, 457),
        rewards_factor: get_array::<16>(data, 465),
        rewards_ore: get_le(data, 481, 8),
        rewards_sol: get_le(data, 489, 8),
        refined_ore: get_le(data, 497, 8),
        round_id: get_le(data, 505, 8),
        lifetime_rewards_ore: get_le(data, 513, 8),
        lifetime_rewards_sol: get_le(data, 521, 8),
    };
    proof {
        assert(miner.encoding() =~= data@);
    }
    Ok(miner)
}

/// A miner record takes `MINER_LEN` bytes and starts with its discriminant.
pub proof fn lemma_miner_encoding_len(miner: Miner)
    ensures
        miner.encoding().len() == MINER_LEN,
        miner.encoding()[0] == MINER_DISCRIMINANT,
{
    lemma_amounts_le_len(miner.deployed@);
    lemma_amounts_le_len(miner.cumulative@);
    lemma_le_bytes_len(miner.checkpoint_fee as nat, 8);
    lemma_le_bytes_len(miner.checkpoint_id as nat, 8);
    lemma_le_bytes_len(i64_bits(miner.last_claim_ore_at), 8);
    lemma_le_bytes_len(i64_bits(miner.last_claim_sol_at), 8);
    lemma_le_bytes_len(miner.rewards_ore as nat, 8);
    lemma_le_bytes_len(miner.rewards_sol as nat, 8);
    lemma_le_bytes_len(miner.refined_ore as nat, 8);
    lemma_le_bytes_len(miner.round_id as nat, 8);
    lemma_le_bytes_len(miner.lifetime_rewards_ore as nat, 8);
    lemma_le_bytes_len(miner.lifetime_rewards_sol as nat, 8);
}

/// Two miner records with the same bytes are the same record.
pub proof fn lemma_miner_encoding_injective(a: Miner, b: Miner)
    requires
        a.encoding() == b.encoding(),
    ensures
        a == b,
{
    let a0 = seq![MINER_DISCRIMINANT];
    let a1 = a0 + a.authority@;
    let a2 = a1 + amounts_le(a.deployed@);
    let a3 = a2 + amounts_le(a.cumulative@);
    let a4 = a3 + u64_le(a.checkpoint_fee);
    let a5 = a4 + u64_le(a.checkpoint_id);
    let a6 = a5 + i64_le(a.last_claim_ore_at);
    let a7 = a6 + i64_le(a.last_claim_sol_at);
    let a8 = a7 + a.rewards_factor@;
    let a9 = a8 + u64_le(a.rewards_ore);
    let a10 = a9 + u64_le(a.rewards_sol);
    let a11 = a10 + u64_le(a.refined_ore);
    let a12 = a11 + u64_le(a.round_id);
    let a13 = a12 + u64_le(a.lifetime_rewards_ore);
    let b0 = seq![MINER_DISCRIMINANT];
    let b1 = b0 + b.authority@;
    let b2 = b1 + amounts_le(b.deployed@);
    let b3 = b2 + amounts_le(b.cumulative@);
    let b4 = b3 + u64_le(b.checkpoint_fee);
    let b5 = b4 + u64_le(b.checkpoint_id);
    let b6 = b5 + i64_le(b.last_claim_ore_at);
    let b7 = b6 + i64_le(b.last_claim_sol_at);
    let b8 = b7 + b.rewards_factor@;
    let b9 = b8 + u64_le(b.rewards_ore);
    let b10 = b9 + u64_le(b.rewards_sol);
    let b11 = b10 + u64_le(b.refined_ore);
    let b12 = b11 + u64_le(b.round_id);
    let b13 = b12 + u64_le(b.lifetime_rewards_ore);
    lemma_split_u64(a13, a.lifetime_rewards_sol, b13, b.lifetime_rewards_sol);
    lemma_split_u64(a12, a.lifetime_rewards_ore, b12, b.lifetime_rewards_ore);
    lemma_split_u64(a11, a.round_id, b11, b.round_id);
    lemma_split_u64(a10, a.refined_ore, b10, b.refined_ore);
    lemma_split_u64(a9, a.rewards_sol, b9, b.rewards_sol);
    lemma_split_u64(a8, a.rewards_ore, b8, b.rewards_ore);
    lemma_split_array(a7, a.rewards_factor, b7, b.rewards_factor);
    lemma_split_i64(a6, a.last_claim_sol_at, b6, b.last_claim_sol_at);
    lemma_split_i64(a5, a.last_claim_ore_at, b5, b.last_claim_ore_at);
    lemma_split_u64(a4, a.checkpoint_id, b4, b.checkpoint_id);
    lemma_split_u64(a3, a.checkpoint_fee, b3, b.checkpoint_fee);
    lemma_split_amounts(a2, a.cumulative, b2, b.cumulative);
    lemma_split_amounts(a1, a.deployed, b1, b.deployed);
    lemma_split_array(a0, a.authority, b0, b.authority);
}

/// Parsing the bytes of a miner record gives the record back.
pub proof fn lemma_miner_round_trip(miner: Miner, r: Result<Miner, DecodeError>)
    requires
        parsed(r, miner.encoding(), MINER_LEN, MINER_DISCRIMINANT, |x: Miner| x.encoding()),
    ensures
        r == Ok::<Miner, DecodeError>(miner),
{
    lemma_miner_encoding_len(miner);
    lemma_miner_encoding_injective(r->Ok_0, miner);
}

/// The bytes of a config record.
pub fn encode_config(config: &Config) -> (out: Vec<u8>)
    ensures
        out@ == config.encoding(),
        out@.len() == CONFIG_LEN,
{
    let mut out: Vec<u8> = Vec::new();
    out.push(CONFIG_DISCRIMINANT);
    put_bytes(&mut out, config.admin_authority.as_slice());
    put_bytes(&mut out, config.admin_fee_collector.as_slice());
    put_le(&mut out, config.admin_fee_rate, 8);
    put_bytes(&mut out, config.authority.as_slice());
    put_bytes(&mut out, config.fee_collector.as_slice());
    put_le(&mut out, config.fee_rate, 8);
    put_le(&mut out, config.intermission_slots, 8);
    put_le(&mut out, config.round_slots, 8);
    put_bytes(&mut out, config.entropy_var_address.as_slice());
    put_bytes(&mut out, config.entropy_program_id.as_slice());
    proof {
        assert(out@ =~= config.encoding());
        lemma_config_encoding_len(*config);
    }
    out
}

/// Reads a config record.
pub fn parse_config(data: &[u8]) -> (r: Result<Config, DecodeError>)
    ensures
        parsed(r, data@, CONFIG_LEN, CONFIG_DISCRIMINANT, |x: Config| x.encoding()),
{
    if data.len() != CONFIG_LEN {
        return Err(DecodeError::WrongSize);
    }
    if data[0] != CONFIG_DISCRIMINANT {
        return Err(DecodeError::WrongDiscriminant);
    }
    let config = Config {
        admin_authority: get_array::<32>(data, 1),
        admin_fee_collector: get_array::<32>(data, 33),
        admin_fee_rate: get_le(data, 65, 8),
        authority: get_array::<32>(data, 73),
        fee_collector: get_array::<32>(data, 105),
        fee_rate: get_le(data, 137, 8),
        intermission_slots: get_le(data, 145, 8),
        round_slots: get_le(data, 153, 8),
        entropy_var_address: get_array::<32>(data, 161),
        entropy_program_id: get_array::<32>(data, 193),
    };
    proof {
        assert(config.encoding() =~= data@);
    }
    Ok(config)
}

/// A config record takes `CONFIG_LEN` bytes and starts with its discriminant.
pub proof fn lemma_config_encoding_len(config: Config)
    ensures
        config.encoding().len() == CONFIG_LEN,
        config.encoding()[0] == CONFIG_DISCRIMINANT,
{
    lemma_le_bytes_len(config.admin_fee_rate as nat, 8);
    lemma_le_bytes_len(config.fee_rate as nat, 8);
    lemma_le_bytes_len(config.intermission_slots as nat, 8);
    lemma_le_bytes_len(config.round_slots as nat, 8);
}

/// Two config records with the same bytes are the same record.
pub proof fn lemma_config_encoding_injective(a: Config, b: Config)
    requires
        a.encoding() == b.encoding(),
    ensures
        a == b,
{
    let a0 = seq![CONFIG_DISCRIMINANT];
    let a1 = a0 + a.admin_authority@;
    let a2 = a1 + a.admin_fee_collector@;
    let a3 = a2 + u64_le(a.admin_fee_rate);
    let a4 = a3 + a.authority@;
    let a5 = a4 + a.fee_collector@;
    let a6 = a5 + u64_le(a.fee_rate);
    let a7 = a6 + u64_le(a.intermission_slots);
    let a8 = a7 + u64_le(a.round_slots);
    let a9 = a8 + a.entropy_var_address@;
    let b0 = seq![CONFIG_DISCRIMINANT];
    let b1 = b0 + b.admin_authority@;
    let b2 = b1 + b.admin_fee_collector@;
    let b3 = b2 + u64_le(b.admin_fee_rate);
    let b4 = b3 + b.authority@;
    let b5 = b4 + b.fee_collector@;
    let b6 = b5 + u64_le(b.fee_rate);
    let b7 = b6 + u64_le(b.intermission_slots);
    let b8 = b7 + u64_le(b.round_slots);
    let b9 = b8 + b.entropy_var_address@;
    lemma_split_array(a9, a.entropy_program_id, b9, b.entropy_program_id);
    lemma_split_array(a8, a.entropy_var_address, b8, b.entropy_var_address);
    lemma_split_u64(a7, a.round_slots, b7, b.round_slots);
    lemma_split_u64(a6, a.intermission_slots, b6, b.intermission_slots);
    lemma_split_u64(a5, a.fee_rate, b5, b.fee_rate);
    lemma_split_array(a4, a.fee_collector, b4, b.fee_collector);
    lemma_split_array(a3, a.authority, b3, b.authority);
    lemma_split_u64(a2, a.admin_fee_rate, b2, b.admin_fee_rate);
    lemma_split_array(a1, a.admin_fee_collector, b1, b.admin_fee_collector);
    lemma_split_array(a0, a.admin_authority, b0, b.admin_authority);
}

/// Parsing the bytes of a config record gives the record back.
pub proof fn lemma_config_round_trip(config: Config, r: Result<Config, DecodeError>)
    requires
        parsed(r, config.encoding(), CONFIG_LEN, CONFIG_DISCRIMINANT, |x: Config| x.encoding()),
    ensures
        r == Ok::<Config, DecodeError>(config),
{
    lemma_config_encoding_len(config);
    lemma_config_encoding_injective(r->Ok_0, config);
}

} // verus!
