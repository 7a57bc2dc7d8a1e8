//! Little-endian integers inside byte buffers.

use vstd::bytes::*;
use vstd::prelude::*;
use vstd::slice::*;

verus! {

/// The `u64` stored little-endian in the eight bytes of `bytes` at `at`.
pub open spec fn u64_at(bytes: Seq<u8>, at: int) -> u64 {
    spec_u64_from_le_bytes(bytes.subrange(at, at + 8))
}

/// The `u32` stored little-endian in the four bytes of `bytes` at `at`.
pub open spec fn u32_at(bytes: Seq<u8>, at: int) -> u32 {
    spec_u32_from_le_bytes(bytes.subrange(at, at + 4))
}

/// Reads the `u64` at `at`.
pub fn read_u64(bytes: &[u8], at: usize) -> (value: u64)
    requires
        at + 8 <= bytes.len(),
    ensures
        value == u64_at(bytes@, at as int),
{
    u64_from_le_bytes(slice_subrange(bytes, at, at + 8))
}

/// Reads the `u32` at `at`.
pub fn read_u32(bytes: &[u8], at: usize) -> (value: u32)
    requires
        at + 4 <= bytes.len(),
    ensures
        value == u32_at(bytes@, at as int),
{
    u32_from_le_bytes(slice_subrange(bytes, at, at + 4))
}

/// Appends the eight little-endian bytes of `value`.
pub fn push_u64(buffer: &mut Vec<u8>, value: u64)
    ensures
        final(buffer)@ == old(buffer)@ + spec_u64_to_le_bytes(value),
{
    let mut bytes = u64_to_le_bytes(value);
    buffer.append(&mut bytes);
}

/// Appends the four little-endian bytes of `value`.
pub fn push_u32(buffer: &mut Vec<u8>, value: u32)
    ensures
        final(buffer)@ == old(buffer)@ + spec_u32_to_le_bytes(value),
{
    let mut bytes = u32_to_le_bytes(value);
    buffer.append(&mut bytes);
}

/// Appends a copy of `bytes`.
pub fn push_bytes(buffer: &mut Vec<u8>, bytes: &[u8])
    ensures
        final(buffer)@ == old(buffer)@ + bytes@,
{
    let mut copy = slice_to_vec(bytes);
    buffer.append(&mut copy);
}

/// `bytes` with the `patch.len()` bytes from `at` on replaced by `patch`.
pub open spec fn overwritten(bytes: Seq<u8>, at: int, patch: Seq<u8>) -> Seq<u8> {
    bytes.subrange(0, at) + patch + bytes.subrange(at + patch.len(), bytes.len() as int)
}

/// Replaces the eight bytes at `at` by the little-endian bytes of `value`.
pub fn store_u64(buffer: &mut Vec<u8>, at: usize, value: u64)
    requires
        at + 8 <= old(buffer).len(),
    ensures
        final(buffer)@ == overwritten(old(buffer)@, at as int, spec_u64_to_le_bytes(value)),
{
    let bytes = u64_to_le_bytes(value);
    let mut i: usize = 0;
    while i < 8
        invariant
            i <= 8,
            bytes@.len() == 8,
            at + 8 <= buffer.len(),
            buffer@.len() == old(buffer)@.len(),
            forall|j: int| 0 <= j < buffer@.len() ==> buffer@[j] == if at <= j < at + i {
                bytes@[j - at]
            } else {
                old(buffer)@[j]
            },
        decreases 8 - i,
    {
        buffer.set(at + i, bytes[i]);
        i = i + 1;
    }
}

/// `n` zero bytes.
pub open spec fn zeros(n: nat) -> Seq<u8> {
    Seq::new(n, |i: int| 0u8)
}

/// Appends `count` zero bytes.
pub fn push_zeros(buffer: &mut Vec<u8>, count: usize)
    ensures
        final(buffer)@ == old(buffer)@ + zeros(count as nat),
{
    let mut i: usize = 0;
    while i < count
        invariant
            i <= count,
            buffer@ == old(buffer)@ + zeros(i as nat),
        decreases count - i,
    {
        buffer.push(0);
        i = i + 1;
    }
}

/// Replaces the bytes from `at` on by `bytes`.
pub fn store_bytes(buffer: &mut Vec<u8>, at: usize, bytes: &[u8])
    requires
        at + bytes.len() <= old(buffer).len(),
    ensures
        final(buffer)@ == overwritten(old(buffer)@, at as int, bytes@),
{
    let count: usize = bytes.len();
    let mut i: usize = 0;
    while i < count
        invariant
            i <= count,
            count == bytes.len(),
            at + count <= buffer.len(),
            buffer@.len() == old(buffer)@.len(),
            forall|j: int|
                0 <= j < buffer@.len() ==> buffer@[j] == if at <= j < at + i {
                    bytes@[j - at]
                } else {
                    old(buffer)@[j]
                },
        decreases count - i,
    {
        buffer.set(at + i, bytes[i]);
        i = i + 1;
    }
}

/// Whether two byte strings are equal.
pub fn same_bytes(a: &[u8], b: &[u8]) -> (same: bool)
    ensures
        same == (a@ == b@),
{
    if a.len() != b.len() {
        return false;
    }
    let count: usize = a.len();
    let mut i: usize = 0;
    while i < count
        invariant
            i <= count,
            count == a.len(),
            count == b.len(),
            forall|j: int| 0 <= j < i ==> a@[j] == b@[j],
        decreases count - i,
    {
        if a[i] != b[i] {
            return false;
        }
        i = i + 1;
    }
    assert(a@ =~= b@);
    true
}

} // verus!
