//! Fixed-width integers as byte strings.
//!
//! An unsigned integer of `n` bytes is written least significant byte first
//! (little-endian) on the wire and in ledger records, and most significant
//! byte first (big-endian) where it seeds an address.

use vstd::prelude::*;

verus! {

/// 256 to the power `n`.
pub open spec fn pow256(n: nat) -> nat
    decreases n,
{
    if n == 0 {
        1
    } else {
        256 * pow256((n - 1) as nat)
    }
}

/// The `n` low bytes of `x`, least significant first.
pub open spec fn le_bytes(x: nat, n: nat) -> Seq<u8>
    decreases n,
{
    if n == 0 {
        Seq::empty()
    } else {
        seq![(x % 256) as u8] + le_bytes(x / 256, (n - 1) as nat)
    }
}

/// The number that `s` writes, least significant byte first.
pub open spec fn le_value(s: Seq<u8>) -> nat
    decreases s.len(),
{
    if s.len() == 0 {
        0
    } else {
        s[0] as nat + 256 * le_value(s.drop_first())
    }
}

/// The `n` low bytes of `x`, most significant first.
pub open spec fn be_bytes(x: nat, n: nat) -> Seq<u8> {
    le_bytes(x, n).reverse()
}

/// The 64 bits of a signed integer in two's complement, as a number.
pub open spec fn i64_bits(x: i64) -> nat {
    if x >= 0 {
        x as nat
    } else {
        (x + 0x1_0000_0000_0000_0000) as nat
    }
}

/// The powers of 256 that fit the widths in use.
pub proof fn lemma_pow256_values()
    ensures
        pow256(0) == 1,
        pow256(1) == 0x100,
        pow256(2) == 0x1_0000,
        pow256(3) == 0x100_0000,
        pow256(4) == 0x1_0000_0000,
        pow256(5) == 0x100_0000_0000,
        pow256(6) == 0x1_0000_0000_0000,
        pow256(7) == 0x100_0000_0000_0000,
        pow256(8) == 0x1_0000_0000_0000_0000,
{
    reveal_with_fuel(pow256, 9);
}

/// `le_bytes(x, n)` has `n` bytes.
pub proof fn lemma_le_bytes_len(x: nat, n: nat)
    ensures
        le_bytes(x, n).len() == n,
    decreases n,
{
    if n > 0 {
        lemma_le_bytes_len(x / 256, (n - 1) as nat);
    }
}

/// A byte string of length `n` writes a number below `256^n`.
pub proof fn lemma_le_value_bound(s: Seq<u8>)
    ensures
        le_value(s) < pow256(s.len()),
    decreases s.len(),
{
    if s.len() > 0 {
        lemma_le_value_bound(s.drop_first());
    }
}

/// Reading back the `n` bytes of a number below `256^n` gives the number.
pub proof fn lemma_le_value_of_bytes(x: nat, n: nat)
    requires
        x < pow256(n),
    ensures
        le_value(le_bytes(x, n)) == x,
    decreases n,
{
    if n > 0 {
        let rest = le_bytes(x / 256, (n - 1) as nat);
        lemma_le_value_of_bytes(x / 256, (n - 1) as nat);
        lemma_le_bytes_len(x / 256, (n - 1) as nat);
        assert(le_bytes(x, n).drop_first() =~= rest);
    }
}

/// Writing the number that a byte string writes gives the byte string.
pub proof fn lemma_le_bytes_of_value(s: Seq<u8>)
    ensures
        le_bytes(le_value(s), s.len()) == s,
    decreases s.len(),
{
    if s.len() > 0 {
        lemma_le_bytes_of_value(s.drop_first());
        assert(seq![s[0]] + s.drop_first() =~= s);
    } else {
        assert(le_bytes(le_value(s), s.len()) =~= s);
    }
}

/// Two numbers below `256^n` with the same `n` bytes are the same number.
pub proof fn lemma_le_bytes_injective(x: nat, y: nat, n: nat)
    requires
        x < pow256(n),
        y < pow256(n),
        le_bytes(x, n) == le_bytes(y, n),
    ensures
        x == y,
{
    lemma_le_value_of_bytes(x, n);
    lemma_le_value_of_bytes(y, n);
}

/// The bits of two signed integers agree only if the integers do.
pub proof fn lemma_i64_bits_injective(x: i64, y: i64)
    requires
        i64_bits(x) == i64_bits(y),
    ensures
        x == y,
{
}

/// Appends the `n` low bytes of `x` to `out`, least significant first.
pub fn put_le(out: &mut Vec<u8>, x: u64, n: usize)
    ensures
        final(out)@ == old(out)@ + le_bytes(x as nat, n as nat),
{
    let mut rest: u64 = x;
    let mut k: usize = 0;
    while k < n
        invariant
            k <= n,
            out@ + le_bytes(rest as nat, (n - k) as nat) == old(out)@ + le_bytes(x as nat, n as nat),
        decreases n - k,
    {
        let ghost before = out@;
        out.push((rest % 256) as u8);
        proof {
            let tail = le_bytes((rest / 256) as nat, (n - k - 1) as nat);
            assert(before + (seq![(rest % 256) as u8] + tail) =~= before.push((rest % 256) as u8)
                + tail);
        }
        rest = rest / 256;
        k = k + 1;
    }
    proof {
        assert(out@ + le_bytes(rest as nat, 0) =~= out@);
    }
}

/// Appends the `n` low bytes of `x` to `out`, most significant first.
pub fn put_be(out: &mut Vec<u8>, x: u64, n: usize)
    ensures
        final(out)@ == old(out)@ + be_bytes(x as nat, n as nat),
{
    let mut low_first: Vec<u8> = Vec::new();
    put_le(&mut low_first, x, n);
    proof {
        lemma_le_bytes_len(x as nat, n as nat);
        assert(low_first@ =~= le_bytes(x as nat, n as nat));
    }
    let ghost written = low_first@.reverse();
    let mut k: usize = n;
    while k > 0
        invariant
            k <= n,
            low_first@.len() == n,
            written == low_first@.reverse(),
            out@ == old(out)@ + written.take(n - k),
        decreases k,
    {
        k = k - 1;
        let ghost before = out@;
        out.push(low_first[k]);
        proof {
            assert(written[n - k - 1] == low_first@[k as int]);
            assert(written.take(n - k) =~= written.take(n - k - 1).push(written[n - k - 1]));
            assert(out@ =~= old(out)@ + written.take(n - k));
        }
    }
    proof {
        assert(written.take(n as int) =~= written);
    }
}

/// Appends the eight bytes of a signed integer in two's complement, least
/// significant first.
pub fn put_i64_le(out: &mut Vec<u8>, x: i64)
    ensures
        final(out)@ == old(out)@ + le_bytes(i64_bits(x), 8),
{
    let bits: u64 = if x >= 0 {
        x as u64
    } else {
        u64::MAX - ((-(x + 1)) as u64)
    };
    put_le(out, bits, 8);
}

/// Appends a copy of `src` to `out`.
pub fn put_bytes(out: &mut Vec<u8>, src: &[u8])
    ensures
        final(out)@ == old(out)@ + src@,
{
    let n: usize = src.len();
    let mut k: usize = 0;
    while k < n
        invariant
            k <= n,
            n == src@.len(),
            out@ == old(out)@ + src@.take(k as int),
        decreases n - k,
    {
        out.push(src[k]);
        proof {
            assert(src@.take(k + 1) =~= src@.take(k as int).push(src@[k as int]));
            assert(out@ =~= old(out)@ + src@.take(k + 1));
        }
        k = k + 1;
    }
    proof {
        assert(src@.take(n as int) =~= src@);
    }
}

/// The number that the `n` bytes of `bytes` from `off` on write, least
/// significant first.
pub(crate) fn get_le(bytes: &[u8], off: usize, n: usize) -> (x: u64)
    requires
        n <= 8,
        off + n <= bytes@.len(),
    ensures
        x == le_value(bytes@.subrange(off as int, off + n)),
        le_bytes(x as nat, n as nat) == bytes@.subrange(off as int, off + n),
{
    let len: usize = bytes.len();
    let mut x: u64 = 0;
    let mut k: usize = n;
    while k > 0
        invariant
            k <= n,
            n <= 8,
            off + n <= len,
            len == bytes@.len(),
            x == le_value(bytes@.subrange(off + k, off + n)),
        decreases k,
    {
        k = k - 1;
        proof {
            let upper = bytes@.subrange(off + k + 1, off + n);
            let grown = bytes@.subrange(off + k, off + n);
            lemma_le_value_bound(upper);
            lemma_pow256_values();
            lemma_pow256_monotonic(upper.len(), 7);
            assert(grown.drop_first() =~= upper);
            assert(grown[0] == bytes@[off + k]);
        }
        x = x * 256 + bytes[off + k] as u64;
    }
    proof {
        lemma_le_bytes_of_value(bytes@.subrange(off as int, off + n));
    }
    x
}

/// The signed integer whose eight bytes in two's complement stand in `bytes`
/// from `off` on, least significant first.
pub(crate) fn get_i64_le(bytes: &[u8], off: usize) -> (x: i64)
    requires
        off + 8 <= bytes@.len(),
    ensures
        le_bytes(i64_bits(x), 8) == bytes@.subrange(off as int, off + 8),
{
    let bits: u64 = get_le(bytes, off, 8);
    if bits <= 0x7fff_ffff_ffff_ffff {
        bits as i64
    } else {
        -((u64::MAX - bits) as i64) - 1
    }
}

/// `pow256` grows with its argument.
pub proof fn lemma_pow256_monotonic(a: nat, b: nat)
    requires
        a <= b,
    ensures
        pow256(a) <= pow256(b),
    decreases b,
{
    if a < b {
        lemma_pow256_monotonic(a, (b - 1) as nat);
    }
}

} // verus!
