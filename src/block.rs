//! Layout of one 512-byte UF2 block and the reading of its header fields.

use vstd::prelude::*;

verus! {

/// Size of one UF2 block in bytes.
pub const BLOCK_SIZE: usize = 512;

/// Size of the block header: eight little-endian 32-bit words.
pub const HEADER_SIZE: usize = 32;

/// Largest payload a block may carry.
pub const MAX_PAYLOAD: u32 = 476;

/// First magic word.
pub const MAGIC_START0: u32 = 0x0A32_4655;

/// Second magic word.
pub const MAGIC_START1: u32 = 0x9E5D_5157;

/// Flag bit: the block carries no data for main flash.
pub const FLAG_NOT_MAIN_FLASH: u32 = 0x1;

/// Flag bit: the last header word holds a family identifier.
pub const FLAG_FAMILY_ID_PRESENT: u32 = 0x2000;

/// Largest zero-filled gap allowed between consecutive blocks of a segment.
pub const MAX_PADDING: u64 = 10485760;

/// Why a buffer could not be decoded; each variant carries the index of the
/// offending block among the buffer's full 512-byte chunks.
#[derive(Debug, Clone, Copy, PartialEq, Eq, Structural)]
pub enum Uf2Error {
    /// An accepted block declares more than 476 payload bytes.
    InvalidDataSize(usize),
    /// The gap before a block is over 10 MiB, or the block lies below the
    /// address the image has already reached.
    TooMuchPaddingRequired(usize),
    /// The gap before a block is not a whole number of 32-bit words.
    NonWordPaddingSize(usize),
}

/// The little-endian 32-bit word at byte offset `off` of `s`.
pub open spec fn le_u32(s: Seq<u8>, off: int) -> u32 {
    (s[off] as int + 256 * s[off + 1] as int + 65536 * s[off + 2] as int + 16777216 * s[
        off + 3] as int) as u32
}

/// Header word number `k` (0 to 7) of a block.
pub open spec fn header_word(b: Seq<u8>, k: int) -> u32 {
    le_u32(b, 4 * k)
}

pub open spec fn magic0(b: Seq<u8>) -> u32 {
    header_word(b, 0)
}

pub open spec fn magic1(b: Seq<u8>) -> u32 {
    header_word(b, 1)
}

pub open spec fn flags(b: Seq<u8>) -> u32 {
    header_word(b, 2)
}

pub open spec fn target_addr(b: Seq<u8>) -> u32 {
    header_word(b, 3)
}

pub open spec fn payload_len(b: Seq<u8>) -> u32 {
    header_word(b, 4)
}

pub open spec fn family_id(b: Seq<u8>) -> u32 {
    header_word(b, 7)
}

/// Both magic words are in place.
pub open spec fn magic_ok(b: Seq<u8>) -> bool {
    magic0(b) == MAGIC_START0 && magic1(b) == MAGIC_START1
}

/// The block is one the decoder acts on: right magic, and meant for main flash.
pub open spec fn accepted(b: Seq<u8>) -> bool {
    magic_ok(b) && flags(b) & FLAG_NOT_MAIN_FLASH == 0
}

/// The block carries a family identifier.
pub open spec fn has_family(b: Seq<u8>) -> bool {
    flags(b) & FLAG_FAMILY_ID_PRESENT != 0
}

/// The payload bytes of a block whose declared length is at most 476.
pub open spec fn payload(b: Seq<u8>) -> Seq<u8> {
    b.subrange(HEADER_SIZE as int, HEADER_SIZE as int + payload_len(b) as int)
}

/// Reads the little-endian 32-bit word at byte offset `off` of `buf`.
pub fn read_u32_le(buf: &[u8], off: usize) -> (r: u32)
    requires
        off + 4 <= buf@.len(),
    ensures
        r == le_u32(buf@, off as int),
{
    let v: u64 = buf[off] as u64 + 256 * (buf[off + 1] as u64) + 65536 * (buf[off + 2] as u64)
        + 16777216 * (buf[off + 3] as u64);
    v as u32
}

} // verus!
