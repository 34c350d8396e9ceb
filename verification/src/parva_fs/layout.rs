//! Where things lie on a disk, in sectors.

use vstd::prelude::*;

verus! {

/// Bytes in a sector, and so in a block.
pub const SECTOR_SIZE: usize = 512;

/// Bytes at the head of a block that hold the address of its successor.
pub const LINK_SIZE: usize = 4;

/// Bytes of a block after the link.
pub const PAYLOAD_SIZE: usize = 508;

/// Payload bytes of one bitmap block.
pub const BITMAP_SIZE: u32 = 508;

/// Blocks of the data region; the bitmap has a bit for each.
pub const MAX_BLOCKS: u32 = 4096;

/// First sector that the filesystem uses: one mebibyte into the disk.
pub const DISK_OFFSET: u32 = 2048;

/// The sector that holds the signature.
pub const SUPERBLOCK_ADDR: u32 = DISK_OFFSET;

/// First sector of the bitmap region.
pub const BITMAP_ADDR_OFFSET: u32 = DISK_OFFSET + 2;

/// First sector of the data region; the root directory starts here.
pub const DATA_ADDR_OFFSET: u32 = BITMAP_ADDR_OFFSET + MAX_BLOCKS / 8;

/// Data blocks that one bitmap block tracks, one bit each.
pub const BITMAP_BITS: u32 = BITMAP_SIZE * 8;

/// Bitmap blocks that hold a bit: as many as it takes to give each of the
/// data blocks one.
pub const BITMAP_BLOCKS: u32 = (MAX_BLOCKS + BITMAP_BITS - 1) / BITMAP_BITS;

/// Sectors of a device: everything up to the last data block.
pub const SECTOR_COUNT: u32 = DATA_ADDR_OFFSET + MAX_BLOCKS;

/// The longest chain a scan follows: no chain of distinct data blocks is
/// longer, so a scan that gets this far is on a cycle.
pub const MAX_HOPS: u32 = MAX_BLOCKS;

/// Whether `addr` is a block of the data region.
pub open spec fn is_data_addr(addr: u32) -> bool {
    DATA_ADDR_OFFSET <= addr < DATA_ADDR_OFFSET + MAX_BLOCKS
}

/// Whether `addr` is a bitmap block that holds the bit of a data block.
pub open spec fn is_bitmap_addr(addr: u32) -> bool {
    BITMAP_ADDR_OFFSET <= addr < BITMAP_ADDR_OFFSET + BITMAP_BLOCKS
}

/// A sector of zeros.
pub open spec fn zero_sector() -> Seq<u8> {
    Seq::new(512, |i: int| 0u8)
}

/// The sector at `addr` of a disk; past the end of the disk every sector
/// reads as zeros.
pub open spec fn sector_of(disk: Seq<Seq<u8>>, addr: u32) -> Seq<u8> {
    if addr < disk.len() {
        disk[addr as int]
    } else {
        zero_sector()
    }
}

/// The disk after `sector` is written at `addr`; a write past the end of the
/// disk is dropped.
pub open spec fn disk_put(disk: Seq<Seq<u8>>, addr: u32, sector: Seq<u8>) -> Seq<Seq<u8>> {
    if addr < disk.len() {
        disk.update(addr as int, sector)
    } else {
        disk
    }
}

/// Every sector of the disk has 512 bytes, and the disk is as long as a
/// device is.
pub open spec fn disk_wf(disk: Seq<Seq<u8>>) -> bool {
    &&& disk.len() == SECTOR_COUNT
    &&& forall|a: int| 0 <= a < disk.len() ==> (#[trigger] disk[a]).len() == 512
}

/// The big-endian number in the four bytes of `bytes` from `at` on.
pub open spec fn be32(bytes: Seq<u8>, at: int) -> u32 {
    (bytes[at] as int * 0x100_0000 + bytes[at + 1] as int * 0x1_0000 + bytes[at + 2] as int * 0x100
        + bytes[at + 3] as int) as u32
}

/// Byte `k` (0 the most significant) of the big-endian form of `value`.
pub open spec fn be_byte(value: u32, k: int) -> u8 {
    if k == 0 {
        (value / 0x100_0000) as u8
    } else if k == 1 {
        ((value / 0x1_0000) % 0x100) as u8
    } else if k == 2 {
        ((value / 0x100) % 0x100) as u8
    } else {
        (value % 0x100) as u8
    }
}

/// `bytes` with the big-endian form of `value` written at `at`.
pub open spec fn put_be32(bytes: Seq<u8>, at: int, value: u32) -> Seq<u8> {
    bytes.update(at, be_byte(value, 0)).update(at + 1, be_byte(value, 1)).update(
        at + 2,
        be_byte(value, 2),
    ).update(at + 3, be_byte(value, 3))
}

/// Reading back a number that was written gives the number.
pub proof fn lemma_be32_put(bytes: Seq<u8>, at: int, value: u32)
    requires
        0 <= at,
        at + 4 <= bytes.len(),
    ensures
        be32(put_be32(bytes, at, value), at) == value,
{
}

/// Splits `value` into its four big-endian bytes.
pub fn be_bytes(value: u32) -> (r: [u8; 4])
    ensures
        r@[0] == be_byte(value, 0),
        r@[1] == be_byte(value, 1),
        r@[2] == be_byte(value, 2),
        r@[3] == be_byte(value, 3),
{
    let b0 = crate::bits::get_bits_u32(value, 24, 32);
    let b1 = crate::bits::get_bits_u32(value, 16, 24);
    let b2 = crate::bits::get_bits_u32(value, 8, 16);
    let b3 = crate::bits::get_bits_u32(value, 0, 8);
    proof {
        crate::bits::lemma_byte_ranges(value);
    }
    [b0 as u8, b1 as u8, b2 as u8, b3 as u8]
}

/// Joins four big-endian bytes into a number.
pub fn from_be_bytes(b0: u8, b1: u8, b2: u8, b3: u8) -> (r: u32)
    ensures
        r == be32(seq![b0, b1, b2, b3], 0),
{
    let r = (b0 as u32) << 24 | (b1 as u32) << 16 | (b2 as u32) << 8 | (b3 as u32);
    assert(r == b0 as u32 * 0x100_0000 + b1 as u32 * 0x1_0000 + b2 as u32 * 0x100 + b3 as u32)
        by (bit_vector)
        requires
            r == (b0 as u32) << 24 | (b1 as u32) << 16 | (b2 as u32) << 8 | (b3 as u32),
    ;
    r
}

} // verus!
