//! The layout of a value in linear memory.
//!
//! A buffer is a four-byte little-endian length followed by that many bytes of
//! payload. A pointer to a buffer is the offset of its header. Metadata strings
//! are framed differently: they run up to the first zero byte.

use crate::bytes::{le_bytes, le_value, lemma_le_bytes_len, lemma_le_value_of_bytes, lemma_radix_values, read_u32_le, u32_le_bytes};
use crate::error::AbiError;
use vstd::prelude::*;
use vstd::slice::{slice_subrange, slice_to_vec};

verus! {

/// The number of bytes in a buffer's header.
pub const HEADER_LEN: usize = 4;

/// A payload with its header in front.
pub open spec fn frame(payload: Seq<u8>) -> Seq<u8> {
    le_bytes(payload.len(), 4) + payload
}

/// Whether a payload of `len` bytes can be framed at all: the size of its
/// buffer must be a `u32`.
pub open spec fn frameable(len: nat) -> bool {
    len + 4 <= u32::MAX
}

/// Whether `len` bytes starting at `at` lie within a memory of `memory_len`.
pub open spec fn within(memory_len: nat, at: int, len: nat) -> bool {
    0 <= at && at + len <= memory_len
}

/// `memory` after `bytes` have been written at `at`.
pub open spec fn overwritten(memory: Seq<u8>, at: int, bytes: Seq<u8>) -> Seq<u8>
    recommends
        0 <= at,
        at + bytes.len() <= memory.len(),
{
    memory.subrange(0, at) + bytes + memory.subrange(at + bytes.len(), memory.len() as int)
}

/// The payload of the buffer whose header starts at `ptr`, if header and
/// payload both lie within `memory`.
pub open spec fn buffer_at(memory: Seq<u8>, ptr: int) -> Option<Seq<u8>> {
    if 0 <= ptr && ptr + 4 <= memory.len() {
        let len = le_value(memory.subrange(ptr, ptr + 4));
        if ptr + 4 + len <= memory.len() {
            Some(memory.subrange(ptr + 4, ptr + 4 + len))
        } else {
            None
        }
    } else {
        None
    }
}

/// The number of bytes from `offset` up to the first zero byte or the end of
/// `memory`.
pub open spec fn c_string_len(memory: Seq<u8>, offset: int) -> nat
    decreases memory.len() - offset,
{
    if 0 <= offset < memory.len() && memory[offset] != 0 {
        1 + c_string_len(memory, offset + 1)
    } else {
        0
    }
}

/// The bytes from `offset` up to, and without, the first zero byte; up to the
/// end of `memory` where no zero byte follows; none where `offset` lies beyond
/// the end.
pub open spec fn c_string_at(memory: Seq<u8>, offset: int) -> Seq<u8> {
    if 0 <= offset < memory.len() {
        memory.subrange(offset, offset + c_string_len(memory, offset))
    } else {
        Seq::empty()
    }
}

/// A string with the zero byte that ends it.
pub open spec fn terminated(text: Seq<u8>) -> Seq<u8> {
    text.push(0u8)
}

/// A string stops within memory, holds no zero byte, and is followed by a
/// zero byte or by the end of memory.
pub proof fn lemma_c_string_len(memory: Seq<u8>, offset: int)
    requires
        0 <= offset <= memory.len(),
    ensures
        offset + c_string_len(memory, offset) <= memory.len(),
        forall|i: int|
            offset <= i < offset + c_string_len(memory, offset) ==> memory[i] != 0,
        offset + c_string_len(memory, offset) < memory.len() ==> memory[offset + c_string_len(
            memory,
            offset,
        )] == 0,
    decreases memory.len() - offset,
{
    if offset < memory.len() && memory[offset] != 0 {
        lemma_c_string_len(memory, offset + 1);
    }
}

/// A run of non-zero bytes that a zero byte or the end of memory follows is
/// the string at its start.
pub proof fn lemma_c_string_found(memory: Seq<u8>, offset: int, len: nat)
    requires
        0 <= offset,
        offset + len <= memory.len(),
        forall|i: int| offset <= i < offset + len ==> memory[i] != 0,
        offset + len < memory.len() ==> memory[offset + len] == 0,
    ensures
        c_string_len(memory, offset) == len,
    decreases len,
{
    if len > 0 {
        lemma_c_string_found(memory, offset + 1, (len - 1) as nat);
    }
}

/// A string without a zero byte that was written with its terminator is read
/// back as it was.
pub proof fn lemma_c_string_round_trip(memory: Seq<u8>, offset: int, text: Seq<u8>)
    requires
        0 <= offset,
        offset + text.len() + 1 <= memory.len(),
        forall|i: int| 0 <= i < text.len() ==> text[i] != 0,
    ensures
        c_string_at(overwritten(memory, offset, terminated(text)), offset) == text,
{
    let after = overwritten(memory, offset, terminated(text));
    assert forall|i: int| offset <= i < offset + text.len() implies after[i] != 0 by {
        assert(after[i] == text[i - offset]);
    }
    assert(after[offset + text.len()] == 0);
    lemma_c_string_found(after, offset, text.len());
    assert(after.subrange(offset, offset + text.len()) =~= text);
}

/// What was written as a buffer is read back: the header holds the length of
/// the payload, little-endian, and the payload follows it unchanged.
pub proof fn lemma_buffer_round_trip(memory: Seq<u8>, ptr: int, payload: Seq<u8>)
    requires
        frameable(payload.len()),
        within(memory.len(), ptr, payload.len() + 4),
    ensures
        ({
            let after = overwritten(memory, ptr, frame(payload));
            &&& after.len() == memory.len()
            &&& after.subrange(ptr, ptr + 4) == le_bytes(payload.len(), 4)
            &&& after.subrange(ptr + 4, ptr + 4 + payload.len()) == payload
            &&& buffer_at(after, ptr) == Some(payload)
        }),
{
    let after = overwritten(memory, ptr, frame(payload));
    lemma_le_bytes_len(payload.len(), 4);
    lemma_radix_values();
    lemma_le_value_of_bytes(payload.len(), 4);
    assert(after.subrange(ptr, ptr + 4) =~= le_bytes(payload.len(), 4));
    assert(after.subrange(ptr + 4, ptr + 4 + payload.len()) =~= payload);
}

/// A buffer that is written apart from another leaves the other as it was:
/// the other is read back unchanged.
pub proof fn lemma_buffers_apart(memory: Seq<u8>, ptr: int, payload: Seq<u8>, other: int)
    requires
        frameable(payload.len()),
        within(memory.len(), ptr, payload.len() + 4),
        buffer_at(memory, other) is Some,
        other + 4 + buffer_at(memory, other)->Some_0.len() <= ptr || ptr + 4 + payload.len()
            <= other,
    ensures
        buffer_at(overwritten(memory, ptr, frame(payload)), other) == buffer_at(memory, other),
{
    let after = overwritten(memory, ptr, frame(payload));
    let kept = buffer_at(memory, other)->Some_0;
    lemma_le_bytes_len(payload.len(), 4);
    assert(after.subrange(other, other + 4) =~= memory.subrange(other, other + 4));
    assert(after.subrange(other + 4, other + 4 + kept.len()) =~= kept);
}

/// Writing within memory leaves every byte outside the written range as it
/// was.
pub proof fn lemma_overwritten_elsewhere(memory: Seq<u8>, at: int, bytes: Seq<u8>, i: int)
    requires
        0 <= at,
        at + bytes.len() <= memory.len(),
        0 <= i < memory.len(),
        i < at || at + bytes.len() <= i,
    ensures
        overwritten(memory, at, bytes)[i] == memory[i],
{
}

/// Copies `bytes` into `memory` at `at`.
pub fn write_bytes(memory: &mut [u8], at: usize, bytes: &[u8])
    requires
        at + bytes@.len() <= old(memory)@.len(),
    ensures
        final(memory)@ == overwritten(old(memory)@, at as int, bytes@),
{
    let ghost before = memory@;
    let size = memory.len();
    let mut i: usize = 0;
    while i < bytes.len()
        invariant
            i <= bytes@.len(),
            at + bytes@.len() <= size,
            memory@.len() == size,
            before.len() == size,
            memory@ == overwritten(before, at as int, bytes@.take(i as int)),
        decreases bytes@.len() - i,
    {
        memory[at + i] = bytes[i];
        proof {
            assert(memory@ =~= overwritten(before, at as int, bytes@.take(i + 1)));
        }
        i = i + 1;
    }
    proof {
        assert(bytes@.take(bytes@.len() as int) =~= bytes@);
    }
}

/// The bytes `memory[from..to]`.
pub fn copy_range(memory: &[u8], from: usize, to: usize) -> (bytes: Vec<u8>)
    requires
        from <= to <= memory@.len(),
    ensures
        bytes@ == memory@.subrange(from as int, to as int),
{
    slice_to_vec(slice_subrange(memory, from, to))
}

/// A payload with its header in front, unless the two together are more than
/// a `u32` can size.
pub fn framed(payload: &[u8]) -> (r: Result<Vec<u8>, AbiError>)
    ensures
        match r {
            Ok(bytes) => frameable(payload@.len()) && bytes@ == frame(payload@),
            Err(e) => e == AbiError::SizeLimitExceeded && !frameable(payload@.len()),
        },
{
    if payload.len() > 0xffff_fffb {
        return Err(AbiError::SizeLimitExceeded);
    }
    let mut bytes = u32_le_bytes(payload.len() as u32);
    bytes.extend_from_slice(payload);
    Ok(bytes)
}

/// Writes `payload` as a buffer whose header starts at `ptr`. Nothing is
/// written unless the whole buffer lies within `memory`.
pub fn write_buffer(memory: &mut [u8], ptr: u32, payload: &[u8]) -> (r: Result<(), AbiError>)
    ensures
        match r {
            Ok(()) => {
                &&& frameable(payload@.len())
                &&& within(old(memory)@.len(), ptr as int, payload@.len() + 4)
                &&& final(memory)@ == overwritten(old(memory)@, ptr as int, frame(payload@))
            },
            Err(e) => {
                &&& final(memory)@ == old(memory)@
                &&& e == if !frameable(payload@.len()) {
                    AbiError::SizeLimitExceeded
                } else {
                    AbiError::OutOfBounds
                }
                &&& !(frameable(payload@.len()) && within(
                    old(memory)@.len(),
                    ptr as int,
                    payload@.len() + 4,
                ))
            },
        },
{
    if payload.len() > 0xffff_fffb {
        return Err(AbiError::SizeLimitExceeded);
    }
    let at = ptr as usize;
    if at > memory.len() || payload.len() + 4 > memory.len() - at {
        return Err(AbiError::OutOfBounds);
    }
    let header = u32_le_bytes(payload.len() as u32);
    let ghost before = memory@;
    proof {
        lemma_le_bytes_len(payload@.len(), 4);
    }
    write_bytes(memory, at, header.as_slice());
    write_bytes(memory, at + 4, payload);
    proof {
        assert(memory@ =~= overwritten(before, ptr as int, frame(payload@)));
    }
    Ok(())
}

/// Reads the payload of the buffer whose header starts at `ptr`.
pub fn read_buffer(memory: &[u8], ptr: u32) -> (r: Result<Vec<u8>, AbiError>)
    ensures
        match r {
            Ok(payload) => buffer_at(memory@, ptr as int) == Some(payload@),
            Err(e) => e == AbiError::OutOfBounds && buffer_at(memory@, ptr as int) is None,
        },
{
    let at = ptr as usize;
    if at > memory.len() || memory.len() - at < 4 {
        return Err(AbiError::OutOfBounds);
    }
    let len = read_u32_le(memory, at) as usize;
    if len > memory.len() - at - 4 {
        return Err(AbiError::OutOfBounds);
    }
    Ok(copy_range(memory, at + 4, at + 4 + len))
}

/// Reads the metadata string that starts at `offset`.
pub fn read_c_string(memory: &[u8], offset: u32) -> (text: Vec<u8>)
    ensures
        text@ == c_string_at(memory@, offset as int),
{
    let start = offset as usize;
    if start >= memory.len() {
        return Vec::new();
    }
    let mut end = start;
    while end < memory.len() && memory[end] != 0
        invariant
            start <= end <= memory@.len(),
            forall|i: int| start <= i < end ==> memory@[i] != 0,
        decreases memory@.len() - end,
    {
        end = end + 1;
    }
    proof {
        lemma_c_string_found(memory@, start as int, (end - start) as nat);
    }
    copy_range(memory, start, end)
}

/// `text` followed by a zero byte.
pub fn terminate(text: &[u8]) -> (bytes: Vec<u8>)
    ensures
        bytes@ == terminated(text@),
{
    let mut bytes = slice_to_vec(text);
    bytes.push(0u8);
    bytes
}

} // verus!
