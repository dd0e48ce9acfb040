//! Little-endian integers as byte sequences.

use vstd::prelude::*;

verus! {

/// `256` to the power `width`: the number of values that `width` bytes can hold.
pub open spec fn radix(width: nat) -> nat
    decreases width,
{
    if width == 0 {
        1
    } else {
        256 * radix((width - 1) as nat)
    }
}

/// The `width` low-order bytes of `value`, least significant first.
pub open spec fn le_bytes(value: nat, width: nat) -> Seq<u8>
    decreases width,
{
    if width == 0 {
        Seq::empty()
    } else {
        seq![(value % 256) as u8] + le_bytes(value / 256, (width - 1) as nat)
    }
}

/// The number that `bytes` spell, least significant byte first.
pub open spec fn le_value(bytes: Seq<u8>) -> nat
    decreases bytes.len(),
{
    if bytes.len() == 0 {
        0
    } else {
        bytes[0] as nat + 256 * le_value(bytes.drop_first())
    }
}

/// `le_bytes` yields exactly `width` bytes.
pub proof fn lemma_le_bytes_len(value: nat, width: nat)
    ensures
        le_bytes(value, width).len() == width,
    decreases width,
{
    if width > 0 {
        lemma_le_bytes_len(value / 256, (width - 1) as nat);
    }
}

/// A value that fits in `width` bytes is read back unchanged.
pub proof fn lemma_le_value_of_bytes(value: nat, width: nat)
    requires
        value < radix(width),
    ensures
        le_value(le_bytes(value, width)) == value,
    decreases width,
{
    if width > 0 {
        let rest = le_bytes(value / 256, (width - 1) as nat);
        let all = le_bytes(value, width);
        lemma_le_bytes_len(value / 256, (width - 1) as nat);
        assert(all.drop_first() =~= rest);
        assert(value / 256 < radix((width - 1) as nat)) by {
            let r = radix((width - 1) as nat);
            assert(value < 256 * r);
        }
        lemma_le_value_of_bytes(value / 256, (width - 1) as nat);
        assert(all[0] == (value % 256) as u8);
        assert(value == (value % 256) + 256 * (value / 256));
    }
}

/// The radix of the three widths that the wire formats use.
pub proof fn lemma_radix_values()
    ensures
        radix(1) == 0x100,
        radix(2) == 0x1_0000,
        radix(4) == 0x1_0000_0000,
        radix(8) == 0x1_0000_0000_0000_0000,
{
    reveal_with_fuel(radix, 9);
}

/// Four bytes spell the sum of their place values.
pub proof fn lemma_le_value_4(bytes: Seq<u8>)
    requires
        bytes.len() == 4,
    ensures
        le_value(bytes) == bytes[0] as nat + 0x100 * (bytes[1] as nat) + 0x1_0000 * (
        bytes[2] as nat) + 0x100_0000 * (bytes[3] as nat),
{
    let t1 = bytes.drop_first();
    let t2 = t1.drop_first();
    let t3 = t2.drop_first();
    let t4 = t3.drop_first();
    assert(t4.len() == 0);
    assert(le_value(t4) == 0);
    assert(le_value(t3) == bytes[3] as nat + 256 * le_value(t4));
    assert(le_value(t2) == bytes[2] as nat + 256 * le_value(t3));
    assert(le_value(t1) == bytes[1] as nat + 256 * le_value(t2));
    assert(le_value(bytes) == bytes[0] as nat + 256 * le_value(t1));
}

/// The four bytes of a `u32`, by division.
pub proof fn lemma_le_bytes_4(value: nat)
    ensures
        le_bytes(value, 4) == seq![
            (value % 256) as u8,
            (value / 0x100 % 256) as u8,
            (value / 0x1_0000 % 256) as u8,
            (value / 0x100_0000 % 256) as u8,
        ],
{
    reveal_with_fuel(le_bytes, 5);
    assert(value / 256 / 256 == value / 0x1_0000 && value / 256 / 256 / 256 == value
        / 0x100_0000) by (nonlinear_arith);
    assert(le_bytes(value, 4) =~= seq![
        (value % 256) as u8,
        (value / 0x100 % 256) as u8,
        (value / 0x1_0000 % 256) as u8,
        (value / 0x100_0000 % 256) as u8,
    ]);
}

/// Reads the little-endian `u32` that starts at `at`.
pub fn read_u32_le(memory: &[u8], at: usize) -> (value: u32)
    requires
        at + 4 <= memory@.len(),
    ensures
        value == le_value(memory@.subrange(at as int, at + 4)),
{
    let b0 = memory[at] as u32;
    let b1 = memory[at + 1] as u32;
    let b2 = memory[at + 2] as u32;
    let b3 = memory[at + 3] as u32;
    proof {
        lemma_le_value_4(memory@.subrange(at as int, at + 4));
    }
    b0 + 0x100 * b1 + 0x1_0000 * b2 + 0x100_0000 * b3
}

/// The four little-endian bytes of `value`.
pub fn u32_le_bytes(value: u32) -> (bytes: Vec<u8>)
    ensures
        bytes@ == le_bytes(value as nat, 4),
{
    let mut bytes: Vec<u8> = Vec::new();
    bytes.push((value % 256) as u8);
    bytes.push((value / 0x100 % 256) as u8);
    bytes.push((value / 0x1_0000 % 256) as u8);
    bytes.push((value / 0x100_0000 % 256) as u8);
    proof {
        lemma_le_bytes_4(value as nat);
        assert(bytes@ =~= le_bytes(value as nat, 4));
    }
    bytes
}

} // verus!
