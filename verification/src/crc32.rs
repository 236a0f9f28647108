//! The OGG flavour of CRC-32: polynomial 0x04C11DB7, most-significant-bit
//! first, no bit reflection of input or output, initial value 0, no final xor.
//!
//! The checksum is specified byte at a time: each input byte is xor-ed into
//! the top byte of the running register, which is then shifted through eight
//! polynomial-division rounds.

use vstd::prelude::*;

verus! {

/// The generator polynomial of the OGG page checksum.
pub const CRC32_POLY: u32 = 0x04C1_1DB7;

/// One polynomial-division round of the running register.
pub open spec fn crc32_round(c: u32) -> u32 {
    if c & 0x8000_0000u32 != 0 {
        (c << 1u32) ^ CRC32_POLY
    } else {
        c << 1u32
    }
}

/// `n` polynomial-division rounds of the running register.
pub open spec fn crc32_rounds(c: u32, n: nat) -> u32
    decreases n,
{
    if n == 0 {
        c
    } else {
        crc32_round(crc32_rounds(c, (n - 1) as nat))
    }
}

/// Folding one input byte into the running register.
pub open spec fn crc32_step(c: u32, b: u8) -> u32 {
    crc32_rounds(c ^ ((b as u32) << 24u32), 8)
}

/// Folding a whole byte sequence into the running register, left to right.
pub open spec fn crc32_acc(c: u32, s: Seq<u8>) -> u32
    decreases s.len(),
{
    if s.len() == 0 {
        c
    } else {
        crc32_step(crc32_acc(c, s.drop_last()), s.last())
    }
}

/// The checksum of a byte sequence: fold it into a register that starts at 0.
pub open spec fn crc32_spec(s: Seq<u8>) -> u32 {
    crc32_acc(0, s)
}

/// Folds one byte into the register, exactly as `crc32_step` says.
fn crc32_byte(c: u32, b: u8) -> (r: u32)
    ensures
        r == crc32_step(c, b),
{
    let mut x: u32 = c ^ ((b as u32) << 24u32);
    let ghost x0: u32 = x;
    let mut k: usize = 0;
    while k < 8
        invariant
            k <= 8,
            x == crc32_rounds(x0, k as nat),
        decreases 8 - k,
    {
        if x & 0x8000_0000u32 != 0 {
            x = (x << 1u32) ^ CRC32_POLY;
        } else {
            x = x << 1u32;
        }
        k = k + 1;
    }
    x
}

/// Folds `data[start..end]` into a running register.
pub fn crc32_feed(crc: u32, data: &[u8], start: usize, end: usize) -> (r: u32)
    requires
        start <= end <= data@.len(),
    ensures
        r == crc32_acc(crc, data@.subrange(start as int, end as int)),
{
    let mut c = crc;
    let mut i = start;
    proof {
        assert(data@.subrange(start as int, start as int) =~= Seq::<u8>::empty());
    }
    while i < end
        invariant
            start <= i <= end <= data@.len(),
            c == crc32_acc(crc, data@.subrange(start as int, i as int)),
        decreases end - i,
    {
        let b = data[i];
        c = crc32_byte(c, b);
        proof {
            let pre = data@.subrange(start as int, i as int);
            let cur = data@.subrange(start as int, i + 1);
            assert(cur.drop_last() =~= pre);
            assert(cur.last() == data@[i as int]);
        }
        i = i + 1;
    }
    c
}

/// The checksum of a byte slice.
pub fn crc32(data: &[u8]) -> (r: u32)
    ensures
        r == crc32_spec(data@),
{
    let r = crc32_feed(0, data, 0, data.len());
    proof {
        assert(data@.subrange(0, data@.len() as int) =~= data@);
    }
    r
}

/// Folding distributes over concatenation: the register after `a + b` is the
/// register after `a`, fed with `b`.
pub proof fn lemma_crc32_acc_append(c: u32, a: Seq<u8>, b: Seq<u8>)
    ensures
        crc32_acc(c, a + b) == crc32_acc(crc32_acc(c, a), b),
    decreases b.len(),
{
    if b.len() == 0 {
        assert(a + b =~= a);
    } else {
        lemma_crc32_acc_append(c, a, b.drop_last());
        assert((a + b).drop_last() =~= a + b.drop_last());
        assert((a + b).last() == b.last());
    }
}

/// One round is injective: the top bit of the old register survives as the
/// low bit of the new one, and the other bits are a plain shift.
proof fn lemma_crc32_round_injective(a: u32, b: u32)
    requires
        crc32_round(a) == crc32_round(b),
    ensures
        a == b,
{
    assert(crc32_round(a) == crc32_round(b) ==> a == b) by (bit_vector);
}

/// `n` rounds are injective.
proof fn lemma_crc32_rounds_injective(a: u32, b: u32, n: nat)
    requires
        crc32_rounds(a, n) == crc32_rounds(b, n),
    ensures
        a == b,
    decreases n,
{
    if n != 0 {
        lemma_crc32_round_injective(crc32_rounds(a, (n - 1) as nat), crc32_rounds(b, (n - 1) as nat));
        lemma_crc32_rounds_injective(a, b, (n - 1) as nat);
    }
}

/// Folding one byte is injective in the register.
proof fn lemma_crc32_step_injective(c1: u32, c2: u32, x: u8)
    requires
        crc32_step(c1, x) == crc32_step(c2, x),
    ensures
        c1 == c2,
{
    lemma_crc32_rounds_injective(c1 ^ ((x as u32) << 24u32), c2 ^ ((x as u32) << 24u32), 8);
    let y = (x as u32) << 24u32;
    assert(c1 ^ y == c2 ^ y ==> c1 == c2) by (bit_vector);
}

/// Two different bytes drive one register to two different registers.
proof fn lemma_crc32_step_differs(c: u32, x1: u8, x2: u8)
    requires
        x1 != x2,
    ensures
        crc32_step(c, x1) != crc32_step(c, x2),
{
    assert(c ^ ((x1 as u32) << 24u32) != c ^ ((x2 as u32) << 24u32)) by (bit_vector)
        requires
            x1 != x2,
    ;
    if crc32_step(c, x1) == crc32_step(c, x2) {
        lemma_crc32_rounds_injective(c ^ ((x1 as u32) << 24u32), c ^ ((x2 as u32) << 24u32), 8);
    }
}

/// Folding a common tail is injective in the register it starts from.
proof fn lemma_crc32_acc_injective(c1: u32, c2: u32, t: Seq<u8>)
    requires
        crc32_acc(c1, t) == crc32_acc(c2, t),
    ensures
        c1 == c2,
    decreases t.len(),
{
    if t.len() != 0 {
        lemma_crc32_step_injective(crc32_acc(c1, t.drop_last()), crc32_acc(c2, t.drop_last()), t.last());
        lemma_crc32_acc_injective(c1, c2, t.drop_last());
    }
}

/// Changing any one byte of a sequence changes its checksum: the corruption
/// that flips bits within a single byte never goes unnoticed.
pub proof fn lemma_crc32_detects_byte_change(s: Seq<u8>, j: int, b: u8)
    requires
        0 <= j < s.len(),
        b != s[j],
    ensures
        crc32_spec(s.update(j, b)) != crc32_spec(s),
{
    let prefix = s.subrange(0, j);
    let suffix = s.subrange(j + 1, s.len() as int);
    let s2 = s.update(j, b);
    assert(s =~= (prefix + seq![s[j]]) + suffix);
    assert(s2 =~= (prefix + seq![b]) + suffix);
    lemma_crc32_acc_append(0, prefix + seq![s[j]], suffix);
    lemma_crc32_acc_append(0, prefix + seq![b], suffix);
    lemma_crc32_acc_append(0, prefix, seq![s[j]]);
    lemma_crc32_acc_append(0, prefix, seq![b]);
    let c0 = crc32_acc(0, prefix);
    assert(crc32_acc(c0, seq![s[j]]) == crc32_step(c0, s[j])) by {
        assert(seq![s[j]].drop_last() =~= Seq::<u8>::empty());
        assert(crc32_acc(c0, seq![s[j]].drop_last()) == c0);
        assert(seq![s[j]].last() == s[j]);
    }
    assert(crc32_acc(c0, seq![b]) == crc32_step(c0, b)) by {
        assert(seq![b].drop_last() =~= Seq::<u8>::empty());
        assert(crc32_acc(c0, seq![b].drop_last()) == c0);
        assert(seq![b].last() == b);
    }
    lemma_crc32_step_differs(c0, s[j], b);
    if crc32_spec(s2) == crc32_spec(s) {
        lemma_crc32_acc_injective(crc32_step(c0, b), crc32_step(c0, s[j]), suffix);
    }
}

} // verus!
