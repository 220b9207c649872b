//! Numbers in big-endian byte order.

use vstd::prelude::*;
use byteorder::{BigEndian, ByteOrder};

verus! {

/// The number that `bytes` are in big-endian order: the first byte counts
/// most.
pub open spec fn be_value(bytes: Seq<u8>) -> nat
    decreases bytes.len(),
{
    if bytes.len() == 0 {
        0
    } else {
        be_value(bytes.drop_last()) * 256 + bytes.last() as nat
    }
}

/// The signed number that the unsigned `value` stands for in two's
/// complement, `modulus` being the number of values of the type.
pub open spec fn signed(value: nat, modulus: int) -> int {
    if value >= modulus / 2 {
        value - modulus
    } else {
        value as int
    }
}

/// The byte that `value` is as a signed number.
pub open spec fn to_i8(value: nat) -> i8 {
    #[verifier::truncate]
    (signed(value, 0x100) as i8)
}

/// The 16-bit integer that `value` is as a signed number.
pub open spec fn to_i16(value: nat) -> i16 {
    #[verifier::truncate]
    (signed(value, 0x1_0000) as i16)
}

/// The 32-bit integer that `value` is as a signed number.
pub open spec fn to_i32(value: nat) -> i32 {
    #[verifier::truncate]
    (signed(value, 0x1_0000_0000) as i32)
}

/// The 64-bit integer that `value` is as a signed number.
pub open spec fn to_i64(value: nat) -> i64 {
    #[verifier::truncate]
    (signed(value, 0x1_0000_0000_0000_0000) as i64)
}

/// The 32 bits of `value`.
pub open spec fn to_u32(value: nat) -> u32 {
    #[verifier::truncate]
    (value as u32)
}

/// The 64 bits of `value`.
pub open spec fn to_u64(value: nat) -> u64 {
    #[verifier::truncate]
    (value as u64)
}

/// Reads an unsigned 16-bit integer from the first two bytes of `buf`.
///
/// This is `BigEndian::read_u16` of byteorder, which takes the first two
/// bytes as a number in big-endian order and panics on a shorter slice.
#[verifier::external_body]
pub(crate) fn be_u16(buf: &[u8]) -> (r: u16)
    requires
        buf@.len() >= 2,
    ensures
        r == be_value(buf@.take(2)),
{
    BigEndian::read_u16(buf)
}

/// Reads an unsigned 32-bit integer from the first four bytes of `buf`.
///
/// This is `BigEndian::read_u32` of byteorder, which takes the first four
/// bytes as a number in big-endian order and panics on a shorter slice.
#[verifier::external_body]
pub(crate) fn be_u32(buf: &[u8]) -> (r: u32)
    requires
        buf@.len() >= 4,
    ensures
        r == be_value(buf@.take(4)),
{
    BigEndian::read_u32(buf)
}

/// Reads an unsigned 64-bit integer from the first eight bytes of `buf`.
///
/// This is `BigEndian::read_u64` of byteorder, which takes the first eight
/// bytes as a number in big-endian order and panics on a shorter slice.
#[verifier::external_body]
pub(crate) fn be_u64(buf: &[u8]) -> (r: u64)
    requires
        buf@.len() >= 8,
    ensures
        r == be_value(buf@.take(8)),
{
    BigEndian::read_u64(buf)
}

/// Reads a signed 16-bit integer from the first two bytes of `buf`.
///
/// This is `BigEndian::read_i16` of byteorder, which reads the unsigned
/// number and takes it in two's complement; it panics on a shorter slice.
#[verifier::external_body]
pub(crate) fn be_i16(buf: &[u8]) -> (r: i16)
    requires
        buf@.len() >= 2,
    ensures
        r == to_i16(be_value(buf@.take(2))),
{
    BigEndian::read_i16(buf)
}

/// Reads a signed 32-bit integer from the first four bytes of `buf`.
///
/// This is `BigEndian::read_i32` of byteorder, which reads the unsigned
/// number and takes it in two's complement; it panics on a shorter slice.
#[verifier::external_body]
pub(crate) fn be_i32(buf: &[u8]) -> (r: i32)
    requires
        buf@.len() >= 4,
    ensures
        r == to_i32(be_value(buf@.take(4))),
{
    BigEndian::read_i32(buf)
}

/// Reads a signed 64-bit integer from the first eight bytes of `buf`.
///
/// This is `BigEndian::read_i64` of byteorder, which reads the unsigned
/// number and takes it in two's complement; it panics on a shorter slice.
#[verifier::external_body]
pub(crate) fn be_i64(buf: &[u8]) -> (r: i64)
    requires
        buf@.len() >= 8,
    ensures
        r == to_i64(be_value(buf@.take(8))),
{
    BigEndian::read_i64(buf)
}

/// A number of one byte is that byte.
pub proof fn lemma_be_value_one(bytes: Seq<u8>)
    requires
        bytes.len() == 1,
    ensures
        be_value(bytes) == bytes[0],
{
    assert(be_value(bytes.drop_last()) == 0);
}

/// A number of up to eight bytes is less than 256 to the power of their
/// count.
pub proof fn lemma_be_value_bound(bytes: Seq<u8>)
    ensures
        bytes.len() == 0 ==> be_value(bytes) == 0,
        bytes.len() == 1 ==> be_value(bytes) < 0x100,
        bytes.len() == 2 ==> be_value(bytes) < 0x1_0000,
        bytes.len() == 3 ==> be_value(bytes) < 0x100_0000,
        bytes.len() == 4 ==> be_value(bytes) < 0x1_0000_0000,
        bytes.len() == 5 ==> be_value(bytes) < 0x100_0000_0000,
        bytes.len() == 6 ==> be_value(bytes) < 0x1_0000_0000_0000,
        bytes.len() == 7 ==> be_value(bytes) < 0x100_0000_0000_0000,
        bytes.len() == 8 ==> be_value(bytes) < 0x1_0000_0000_0000_0000,
    decreases bytes.len(),
{
    if 0 < bytes.len() <= 8 {
        lemma_be_value_bound(bytes.drop_last());
    }
}

/// Reads the signed 64-bit integer that the first eight bytes of `bytes`
/// are in big-endian order, or `None` if there are fewer.
pub fn read_i64_prefix(bytes: &[u8]) -> (r: Option<i64>)
    ensures
        match r {
            Some(value) => bytes@.len() >= 8 && value == to_i64(be_value(bytes@.take(8))),
            None => bytes@.len() < 8,
        },
{
    if bytes.len() < 8 {
        None
    } else {
        Some(be_i64(bytes))
    }
}

} // verus!
