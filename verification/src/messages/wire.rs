//! Big-endian integers and shared byte buffers, as the outside crates
//! `byteorder` and `bytes` provide them.

use byteorder::{BigEndian, ByteOrder};
use bytes::Bytes;
use vstd::prelude::*;

verus! {

/// The four bytes of `value`, most significant first.
pub open spec fn be_u32_bytes(value: u32) -> Seq<u8> {
    seq![
        (value / 0x100_0000) as u8,
        ((value / 0x1_0000) % 0x100) as u8,
        ((value / 0x100) % 0x100) as u8,
        (value % 0x100) as u8,
    ]
}

/// The number whose big-endian bytes are the first four of `bytes`.
pub open spec fn be_u32_value(bytes: Seq<u8>) -> int
    recommends
        bytes.len() >= 4,
{
    bytes[0] * 0x100_0000 + bytes[1] * 0x1_0000 + bytes[2] * 0x100 + bytes[3]
}

/// Reading back what was written gives the number that was written.
pub proof fn lemma_be_u32_round_trip(value: u32)
    ensures
        be_u32_bytes(value).len() == 4,
        be_u32_value(be_u32_bytes(value)) == value,
{
}

/// Writing what was read gives the bytes that were read.
pub proof fn lemma_be_u32_bytes_of_value(bytes: Seq<u8>)
    requires
        bytes.len() == 4,
    ensures
        0 <= be_u32_value(bytes) <= u32::MAX,
        be_u32_bytes(be_u32_value(bytes) as u32) == bytes,
{
    let b0: int = bytes[0] as int;
    let b1: int = bytes[1] as int;
    let b2: int = bytes[2] as int;
    let b3: int = bytes[3] as int;
    let low: int = b1 * 0x1_0000 + b2 * 0x100 + b3;
    let value: int = b0 * 0x100_0000 + low;
    assert(0 <= low < 0x100_0000);
    assert(value / 0x100_0000 == b0);
    assert((value / 0x1_0000) % 0x100 == b1) by {
        assert(value / 0x1_0000 == b0 * 0x100 + b1);
    }
    assert((value / 0x100) % 0x100 == b2) by {
        assert(value / 0x100 == b0 * 0x1_0000 + b1 * 0x100 + b2);
    }
    assert(value % 0x100 == b3);
    assert(be_u32_bytes(value as u32) =~= bytes);
}

/// `bytes::Bytes`, a shared buffer of bytes. What a buffer holds is known
/// through [`bytes_contents`] alone.
#[verifier::external_type_specification]
#[verifier::external_body]
pub struct ExBytes(Bytes);

/// The bytes that a `bytes::Bytes` buffer holds, first to last.
pub uninterp spec fn bytes_contents(buffer: Bytes) -> Seq<u8>;

/// `byteorder::BigEndian::write_u32` on a buffer of four bytes: afterwards
/// the buffer holds the big-endian bytes of `value`.
#[verifier::external_body]
pub(crate) fn write_u32_be(buffer: &mut [u8; 4], value: u32)
    ensures
        final(buffer)@ == be_u32_bytes(value),
{
    BigEndian::write_u32(buffer, value);
}

/// `byteorder::BigEndian::read_u32`: the number that the first four bytes of
/// `buffer` spell, most significant first. The outside function panics on a
/// shorter buffer, which `requires` leaves out.
#[verifier::external_body]
pub(crate) fn read_u32_be(buffer: &[u8]) -> (value: u32)
    requires
        buffer@.len() >= 4,
    ensures
        value == be_u32_value(buffer@),
{
    BigEndian::read_u32(buffer)
}

/// `Bytes::from` for a `Vec<u8>`: the buffer holds the bytes of the vector,
/// in its order.
#[verifier::external_body]
pub(crate) fn bytes_from_vec(data: Vec<u8>) -> (buffer: Bytes)
    ensures
        bytes_contents(buffer) == data@,
{
    Bytes::from(data)
}

/// `Bytes::as_ref`: the buffer's contents as a slice.
#[verifier::external_body]
pub(crate) fn bytes_as_slice(buffer: &Bytes) -> (data: &[u8])
    ensures
        data@ == bytes_contents(*buffer),
{
    buffer.as_ref()
}

} // verus!
