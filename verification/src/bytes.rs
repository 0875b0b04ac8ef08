//! Big-endian numbers in byte strings, and comparison of byte strings.
use vstd::prelude::*;

verus! {

/// The two bytes of `x`, most significant first.
pub open spec fn be16(x: u16) -> Seq<u8> {
    seq![(x / 256) as u8, (x % 256) as u8]
}

/// The four bytes of `x`, most significant first.
pub open spec fn be32(x: u32) -> Seq<u8> {
    seq![
        (x / 0x100_0000) as u8,
        (x / 0x1_0000 % 256) as u8,
        (x / 256 % 256) as u8,
        (x % 256) as u8,
    ]
}

/// The eight bytes of `x`, most significant first.
pub open spec fn be64(x: u64) -> Seq<u8> {
    be32((x / 0x1_0000_0000) as u32) + be32((x % 0x1_0000_0000) as u32)
}

/// The number that a byte string spells, most significant byte first.
pub open spec fn be_value(bytes: Seq<u8>) -> nat
    decreases bytes.len(),
{
    if bytes.len() == 0 {
        0
    } else {
        be_value(bytes.drop_last()) * 256 + bytes.last() as nat
    }
}

/// Appends the two bytes of `x`.
pub fn push_be16(buf: &mut Vec<u8>, x: u16)
    ensures
        final(buf)@ == old(buf)@ + be16(x),
{
    buf.push((x / 256) as u8);
    buf.push((x % 256) as u8);
}

/// Appends the four bytes of `x`.
pub fn push_be32(buf: &mut Vec<u8>, x: u32)
    ensures
        final(buf)@ == old(buf)@ + be32(x),
{
    buf.push((x / 0x100_0000) as u8);
    buf.push((x / 0x1_0000 % 256) as u8);
    buf.push((x / 256 % 256) as u8);
    buf.push((x % 256) as u8);
}

/// Appends the eight bytes of `x`.
pub fn push_be64(buf: &mut Vec<u8>, x: u64)
    ensures
        final(buf)@ == old(buf)@ + be64(x),
{
    push_be32(buf, (x / 0x1_0000_0000) as u32);
    push_be32(buf, (x % 0x1_0000_0000) as u32);
}

/// Appends `bytes`.
pub fn push_bytes(buf: &mut Vec<u8>, bytes: &[u8])
    ensures
        final(buf)@ == old(buf)@ + bytes@,
{
    buf.extend_from_slice(bytes);
}

/// Reads two bytes at `at` as a number.
pub fn read_be16(bytes: &[u8], at: usize) -> (x: u16)
    requires
        at + 2 <= bytes@.len(),
    ensures
        x == be_value(bytes@.subrange(at as int, at + 2)),
{
    proof {
        reveal_with_fuel(be_value, 3);
        let s = bytes@.subrange(at as int, at + 2);
        assert(s.drop_last().drop_last() == Seq::<u8>::empty());
        assert(s.last() == bytes@[at + 1]);
        assert(s.drop_last().last() == bytes@[at as int]);
    }
    bytes[at] as u16 * 256 + bytes[at + 1] as u16
}

/// Reads four bytes at `at` as a number.
pub fn read_be32(bytes: &[u8], at: usize) -> (x: u32)
    requires
        at + 4 <= bytes@.len(),
    ensures
        x == be_value(bytes@.subrange(at as int, at + 4)),
{
    proof {
        reveal_with_fuel(be_value, 5);
        let s = bytes@.subrange(at as int, at + 4);
        assert(s.drop_last().drop_last().drop_last().drop_last() == Seq::<u8>::empty());
        assert(s.last() == bytes@[at + 3]);
        assert(s.drop_last().last() == bytes@[at + 2]);
        assert(s.drop_last().drop_last().last() == bytes@[at + 1]);
        assert(s.drop_last().drop_last().drop_last().last() == bytes@[at as int]);
    }
    bytes[at] as u32 * 0x100_0000 + bytes[at + 1] as u32 * 0x1_0000 + bytes[at + 2] as u32 * 256
        + bytes[at + 3] as u32
}

/// Whether two byte strings are equal.
pub fn same_bytes(a: &[u8], b: &[u8]) -> (same: bool)
    ensures
        same == (a@ == b@),
{
    if a.len() != b.len() {
        return false;
    }
    let mut i: usize = 0;
    while i < a.len()
        invariant
            i <= a@.len(),
            a@.len() == b@.len(),
            forall|j: int| 0 <= j < i ==> a@[j] == b@[j],
        decreases a@.len() - i,
    {
        if a[i] != b[i] {
            return false;
        }
        i += 1;
    }
    assert(a@ == b@);
    true
}

/// A number written as four bytes reads back as itself.
pub proof fn law_be32_round_trip(x: u32)
    ensures
        be32(x).len() == 4,
        be_value(be32(x)) == x,
{
    reveal_with_fuel(be_value, 5);
    let s = be32(x);
    assert(s.drop_last().drop_last().drop_last().drop_last() == Seq::<u8>::empty());
}

/// A number written as two bytes reads back as itself.
pub proof fn law_be16_round_trip(x: u16)
    ensures
        be16(x).len() == 2,
        be_value(be16(x)) == x,
{
    reveal_with_fuel(be_value, 3);
    let s = be16(x);
    assert(s.drop_last().drop_last() == Seq::<u8>::empty());
}

/// Four bytes spell a number of 32 bits.
pub proof fn lemma_be_value_bound(bytes: Seq<u8>)
    requires
        bytes.len() == 4,
    ensures
        be_value(bytes) <= u32::MAX,
{
    reveal_with_fuel(be_value, 5);
}

/// Bytes spell numbers in base 256, most significant first: a byte by itself spells its value, and
/// what is put in front of `low` counts as many powers of 256 as `low` is long.
pub proof fn law_bytes_spell_in_base_256(high: Seq<u8>, low: Seq<u8>, b: u8)
    ensures
        be_value(Seq::<u8>::empty()) == 0,
        be_value(seq![b]) == b,
        be_value(high + low) == be_value(high) * vstd::arithmetic::power::pow(256, low.len())
            + be_value(low),
    decreases low.len(),
{
    reveal_with_fuel(be_value, 2);
    assert(seq![b].drop_last() == Seq::<u8>::empty());
    if low.len() == 0 {
        vstd::arithmetic::power::lemma_pow0(256);
        assert(high + low == high);
    } else {
        let shorter = low.drop_last();
        law_bytes_spell_in_base_256(high, shorter, b);
        assert((high + low).drop_last() == high + shorter);
        vstd::arithmetic::power::lemma_pow_adds(256, shorter.len(), 1);
        vstd::arithmetic::power::lemma_pow1(256);
        let p = vstd::arithmetic::power::pow(256, shorter.len());
        let v = be_value(high) as int;
        assert((v * p) * 256 == v * (p * 256)) by (nonlinear_arith);
    }
}

/// A number written as eight bytes reads back as itself.
pub proof fn law_be64_round_trip(x: u64)
    ensures
        be64(x).len() == 8,
        be_value(be64(x)) == x,
{
    let high = be32((x / 0x1_0000_0000) as u32);
    let low = be32((x % 0x1_0000_0000) as u32);
    law_be32_round_trip((x / 0x1_0000_0000) as u32);
    law_be32_round_trip((x % 0x1_0000_0000) as u32);
    law_bytes_spell_in_base_256(high, low, 0);
    reveal_with_fuel(vstd::arithmetic::power::pow, 5);
    assert(vstd::arithmetic::power::pow(256, 4) == 0x1_0000_0000);
}

/// Two byte strings of the same length that spell the same number are the same.
pub proof fn law_spelling_is_unique(a: Seq<u8>, b: Seq<u8>)
    requires
        a.len() == b.len(),
        be_value(a) == be_value(b),
    ensures
        a == b,
    decreases a.len(),
{
    if a.len() > 0 {
        law_spelling_is_unique(a.drop_last(), b.drop_last());
        assert(a == a.drop_last().push(a.last()));
        assert(b == b.drop_last().push(b.last()));
    } else {
        assert(a == b);
    }
}

} // verus!
