//! Bytes as they stand in a packet: integers in network order, and the
//! checksum of the Internet protocols.

use byteorder::{ByteOrder, NetworkEndian};
use vstd::prelude::*;

verus! {

/// The two bytes of `n`, the high one first.
pub open spec fn be_bytes_u16(n: u16) -> Seq<u8> {
    seq![(n / 0x100) as u8, (n % 0x100) as u8]
}

/// The four bytes of `n`, the highest first.
pub open spec fn be_bytes_u32(n: u32) -> Seq<u8> {
    seq![
        (n / 0x100_0000) as u8,
        (n / 0x1_0000 % 0x100) as u8,
        (n / 0x100 % 0x100) as u8,
        (n % 0x100) as u8,
    ]
}

/// `bytes` with the bytes from index `at` on replaced by those of `with`.
pub open spec fn overwritten(bytes: Seq<u8>, at: int, with: Seq<u8>) -> Seq<u8> {
    bytes.subrange(0, at) + with + bytes.subrange(at + with.len(), bytes.len() as int)
}

/// The checksum of RFC 1071 over `bytes`, as the two bytes that
/// `internet_checksum::checksum` returns for them.
pub uninterp spec fn rfc1071_checksum(bytes: Seq<u8>) -> [u8; 2];

/// Number of bytes from which on `internet_checksum::checksum` adds up its
/// argument in wide words, carrying from one to the next.
pub const CHECKSUM_WIDE_FROM: usize = 64;

/// `internet_checksum::checksum` computes the RFC 1071 checksum of its
/// argument and returns it as two bytes. The result depends on the bytes
/// alone; it is not stated here, only named. It is claimed for arguments that
/// are added up two bytes at a time, where no sum can leave its range.
pub assume_specification[ internet_checksum::checksum ](bytes: &[u8]) -> (sum: [u8; 2])
    requires
        bytes@.len() < CHECKSUM_WIDE_FROM,
    ensures
        sum == rfc1071_checksum(bytes@),
;

/// `byteorder::NetworkEndian::write_u16` writes `n` into the first two bytes
/// of the slice it is given, the high byte first, and leaves the rest as it
/// is. It panics on a slice of less than two bytes.
#[verifier::external_body]
pub(crate) fn write_u16(bytes: &mut Vec<u8>, at: usize, n: u16)
    requires
        at + 2 <= old(bytes).len(),
    ensures
        final(bytes)@ == overwritten(old(bytes)@, at as int, be_bytes_u16(n)),
{
    NetworkEndian::write_u16(&mut bytes[at..], n);
}

/// `byteorder::NetworkEndian::write_u32` writes `n` into the first four bytes
/// of the slice it is given, the highest byte first, and leaves the rest as
/// it is. It panics on a slice of less than four bytes.
#[verifier::external_body]
pub(crate) fn write_u32(bytes: &mut Vec<u8>, at: usize, n: u32)
    requires
        at + 4 <= old(bytes).len(),
    ensures
        final(bytes)@ == overwritten(old(bytes)@, at as int, be_bytes_u32(n)),
{
    NetworkEndian::write_u32(&mut bytes[at..], n);
}

/// Copies `src` into `bytes`, from index `at` on.
pub fn copy_bytes(bytes: &mut Vec<u8>, at: usize, src: &Vec<u8>)
    requires
        at + src.len() <= old(bytes).len(),
    ensures
        final(bytes)@ == overwritten(old(bytes)@, at as int, src@),
{
    let mut i: usize = 0;
    while i < src.len()
        invariant
            i <= src.len(),
            at + src.len() <= bytes.len(),
            bytes.len() == old(bytes).len(),
            forall|k: int|
                0 <= k < bytes.len() ==> #[trigger] bytes@[k] == (if at <= k < at + i {
                    src@[k - at]
                } else {
                    old(bytes)@[k]
                }),
        decreases src.len() - i,
    {
        bytes.set(at + i, src[i]);
        i += 1;
    }
    assert(bytes@ =~= overwritten(old(bytes)@, at as int, src@));
}

} // verus!
