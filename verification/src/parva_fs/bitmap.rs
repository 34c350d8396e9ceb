//! The bitmap of used data blocks: one bit for each, kept in the payloads
//! of the first bitmap blocks.

use crate::bits::{
    bit_is_set, byte_with_bit, get_bit_u8, lemma_bit_after_set, lemma_bit_set_then_cleared,
    set_bit_u8,
};
use crate::parva_fs::block::Block;
use crate::parva_fs::block_device::BlockDevice;
use crate::parva_fs::layout::{
    disk_put, disk_wf, is_bitmap_addr, is_data_addr, sector_of, zero_sector, BITMAP_ADDR_OFFSET,
    BITMAP_BITS, BITMAP_SIZE, DATA_ADDR_OFFSET, MAX_BLOCKS,
};
use vstd::prelude::*;

verus! {

/// The bitmap block that holds the bit of `addr`: each takes the bits of as
/// many data blocks as its payload has bits, in ascending order.
pub open spec fn mark_sector(addr: u32) -> u32 {
    (BITMAP_ADDR_OFFSET + (addr - DATA_ADDR_OFFSET) / (BITMAP_BITS as int)) as u32
}

/// The position of the bit of `addr` within the payload of its bitmap
/// block.
pub open spec fn mark_index(addr: u32) -> int {
    (addr - DATA_ADDR_OFFSET) % (BITMAP_BITS as int)
}

/// The position in a sector of the bitmap byte that holds the bit of `addr`.
pub open spec fn mark_byte(addr: u32) -> int {
    4 + mark_index(addr) / 8
}

/// The bit of `addr` within its bitmap byte.
pub open spec fn mark_bit(addr: u32) -> u8 {
    (mark_index(addr) % 8) as u8
}

/// Whether the bitmap marks the data block `addr` as used. No address
/// outside the data region is marked.
pub open spec fn is_marked(disk: Seq<Seq<u8>>, addr: u32) -> bool {
    is_data_addr(addr) && bit_is_set(
        sector_of(disk, mark_sector(addr))[mark_byte(addr)],
        mark_bit(addr),
    )
}

/// The disk after the bit of `addr` is given `value`. An address outside the
/// data region has no bit, and the disk stays as it is.
pub open spec fn with_mark(disk: Seq<Seq<u8>>, addr: u32, value: bool) -> Seq<Seq<u8>> {
    if is_data_addr(addr) {
        let s = sector_of(disk, mark_sector(addr));
        disk_put(
            disk,
            mark_sector(addr),
            s.update(mark_byte(addr), byte_with_bit(s[mark_byte(addr)], mark_bit(addr), value)),
        )
    } else {
        disk
    }
}

/// The disk after the data block `addr` is taken: marked used and filled
/// with zeros.
pub open spec fn alloc_block(disk: Seq<Seq<u8>>, addr: u32) -> Seq<Seq<u8>> {
    disk_put(with_mark(disk, addr, true), addr, zero_sector())
}

/// The first data block at or after position `from` of the data region that
/// is not marked, in ascending order of address.
pub open spec fn first_free_from(disk: Seq<Seq<u8>>, from: nat) -> Option<u32>
    decreases MAX_BLOCKS - from,
{
    if from >= MAX_BLOCKS {
        None
    } else if !is_marked(disk, (DATA_ADDR_OFFSET + from) as u32) {
        Some((DATA_ADDR_OFFSET + from) as u32)
    } else {
        first_free_from(disk, from + 1)
    }
}

/// The free data block with the lowest address.
pub open spec fn first_free(disk: Seq<Seq<u8>>) -> Option<u32> {
    first_free_from(disk, 0)
}

/// What `first_free_from` finds is a free data block at or after `from`, and
/// every data block between `from` and it is marked; when it finds none,
/// all from `from` on are marked.
pub proof fn lemma_first_free_from(disk: Seq<Seq<u8>>, from: nat)
    ensures
        match first_free_from(disk, from) {
            Some(a) => {
                &&& is_data_addr(a)
                &&& DATA_ADDR_OFFSET + from <= a
                &&& !is_marked(disk, a)
                &&& forall|b: u32| DATA_ADDR_OFFSET + from <= b < a ==> is_marked(disk, b)
            },
            None => forall|b: u32| is_data_addr(b) && DATA_ADDR_OFFSET + from <= b ==> is_marked(
                disk,
                b,
            ),
        },
    decreases MAX_BLOCKS - from,
{
    if from < MAX_BLOCKS && is_marked(disk, (DATA_ADDR_OFFSET + from) as u32) {
        lemma_first_free_from(disk, from + 1);
    }
}

/// Marking one data block changes its bit and no other.
pub proof fn lemma_mark(disk: Seq<Seq<u8>>, addr: u32, value: bool, other: u32)
    requires
        disk_wf(disk),
        is_data_addr(addr),
    ensures
        is_marked(with_mark(disk, addr, value), other) == (if other == addr {
            value
        } else {
            is_marked(disk, other)
        }),
        disk_wf(with_mark(disk, addr, value)),
        forall|a: u32| a != mark_sector(addr) ==> sector_of(with_mark(disk, addr, value), a)
            == sector_of(disk, a),
        is_bitmap_addr(mark_sector(addr)),
{
    if is_data_addr(other) {
        let s = sector_of(disk, mark_sector(addr));
        lemma_bit_after_set(s[mark_byte(addr)], mark_bit(addr), value, mark_bit(other));
    }
}

/// The allocator's view of the disk. It keeps nothing in memory: every
/// question is answered from a bitmap block on the device.
pub struct BlockBitmap {}

impl BlockBitmap {
    /// The bitmap block that holds the bit of `data_addr`.
    pub fn block_index(data_addr: u32) -> (r: u32)
        requires
            data_addr >= DATA_ADDR_OFFSET,
        ensures
            r == mark_sector(data_addr),
    {
        let i = data_addr - DATA_ADDR_OFFSET;
        BITMAP_ADDR_OFFSET + (i / BITMAP_SIZE / 8)
    }

    /// The position of the bit of `data_addr` within its bitmap block.
    pub fn buffer_index(data_addr: u32) -> (r: usize)
        requires
            data_addr >= DATA_ADDR_OFFSET,
        ensures
            r == mark_index(data_addr),
    {
        let i = data_addr - DATA_ADDR_OFFSET;
        (i % (BITMAP_SIZE * 8)) as usize
    }

    /// Whether `addr` is a data block that is not in use.
    pub fn is_free(dev: &BlockDevice, addr: u32) -> (r: bool)
        ensures
            r == (is_data_addr(addr) && !is_marked(dev@, addr)),
    {
        if addr < DATA_ADDR_OFFSET || addr >= DATA_ADDR_OFFSET + MAX_BLOCKS {
            return false;
        }
        let block = Block::read(dev, BlockBitmap::block_index(addr));
        let bitmap = block.data();
        let i = BlockBitmap::buffer_index(addr);
        !get_bit_u8(bitmap[i / 8], (i % 8) as u8)
    }

    /// Marks the data block `addr` as used. Any other address has no bit:
    /// nothing is written.
    pub fn allocate(dev: &mut BlockDevice, addr: u32)
        ensures
            final(dev)@ == with_mark(old(dev)@, addr, true),
            final(dev).spec_bus() == old(dev).spec_bus(),
            final(dev).spec_dsk() == old(dev).spec_dsk(),
            old(dev).wf() ==> final(dev).wf(),
            old(dev).wf() && is_data_addr(addr) ==> is_marked(final(dev)@, addr),
            old(dev).wf() ==> forall|other: u32|
                other != addr ==> #[trigger] is_marked(final(dev)@, other) == is_marked(
                    old(dev)@,
                    other,
                ),
    {
        BlockBitmap::set(dev, addr, true);
    }

    /// Marks the data block `addr` as free. Any other address has no bit:
    /// nothing is written.
    pub fn free(dev: &mut BlockDevice, addr: u32)
        ensures
            final(dev)@ == with_mark(old(dev)@, addr, false),
            final(dev).spec_bus() == old(dev).spec_bus(),
            final(dev).spec_dsk() == old(dev).spec_dsk(),
            old(dev).wf() ==> final(dev).wf(),
            old(dev).wf() && is_data_addr(addr) ==> !is_marked(final(dev)@, addr),
            old(dev).wf() ==> forall|other: u32|
                other != addr ==> #[trigger] is_marked(final(dev)@, other) == is_marked(
                    old(dev)@,
                    other,
                ),
    {
        BlockBitmap::set(dev, addr, false);
    }

    fn set(dev: &mut BlockDevice, addr: u32, value: bool)
        ensures
            final(dev)@ == with_mark(old(dev)@, addr, value),
            final(dev).spec_bus() == old(dev).spec_bus(),
            final(dev).spec_dsk() == old(dev).spec_dsk(),
            old(dev).wf() ==> final(dev).wf(),
            old(dev).wf() && is_data_addr(addr) ==> is_marked(final(dev)@, addr) == value,
            old(dev).wf() ==> forall|other: u32|
                other != addr ==> #[trigger] is_marked(final(dev)@, other) == is_marked(
                    old(dev)@,
                    other,
                ),
    {
        if addr < DATA_ADDR_OFFSET || addr >= DATA_ADDR_OFFSET + MAX_BLOCKS {
            return ;
        }
        let mut block = Block::read(dev, BlockBitmap::block_index(addr));
        let i = BlockBitmap::buffer_index(addr);
        let byte = block.buf[4 + i / 8];
        block.buf[4 + i / 8] = set_bit_u8(byte, (i % 8) as u8, value);
        block.write(dev);
        proof {
            if old(dev).wf() {
                lemma_mark(old(dev)@, addr, value, addr);
                assert forall|other: u32| other != addr implies #[trigger] is_marked(
                    dev@,
                    other,
                ) == is_marked(old(dev)@, other) by {
                    lemma_mark(old(dev)@, addr, value, other);
                }
            }
        }
    }

    /// The free data block with the lowest address: the bitmap blocks are
    /// scanned in order, each byte by byte, each byte from its lowest bit
    /// up.
    pub fn next_free_addr(dev: &BlockDevice) -> (r: Option<u32>)
        ensures
            r == first_free(dev@),
            r matches Some(a) ==> is_data_addr(a) && !is_marked(dev@, a),
            r is None ==> forall|b: u32| is_data_addr(b) ==> is_marked(dev@, b),
    {
        proof {
            lemma_first_free_from(dev@, 0);
        }
        BlockBitmap::next_free_from(dev, 0)
    }

    /// The free data block with the lowest address among those at position
    /// `from` of the data region or later.
    pub fn next_free_from(dev: &BlockDevice, from: u32) -> (r: Option<u32>)
        ensures
            r == first_free_from(dev@, from as nat),
    {
        if from >= MAX_BLOCKS {
            return None;
        }
        let mut i: u32 = from;
        let mut block = Block::read(dev, BITMAP_ADDR_OFFSET + i / BITMAP_BITS);
        while i < MAX_BLOCKS
            invariant
                from <= i <= MAX_BLOCKS,
                i < MAX_BLOCKS ==> block.buf@ == sector_of(
                    dev@,
                    mark_sector((DATA_ADDR_OFFSET + i) as u32),
                ),
                first_free_from(dev@, from as nat) == first_free_from(dev@, i as nat),
            decreases MAX_BLOCKS - i,
        {
            let bitmap = block.data();
            let bit = i % BITMAP_BITS;
            if !get_bit_u8(bitmap[(bit / 8) as usize], (bit % 8) as u8) {
                return Some(DATA_ADDR_OFFSET + i);
            }
            i += 1;
            if i < MAX_BLOCKS && i % BITMAP_BITS == 0 {
                block = Block::read(dev, BITMAP_ADDR_OFFSET + i / BITMAP_BITS);
            }
        }
        None
    }
}

/// The block that the scan for a free block names is a data block that is
/// not marked used; marking it changes no other block's mark, and the scan
/// then names another block or none.
pub proof fn theorem_free_then_taken(disk: Seq<Seq<u8>>)
    requires
        disk_wf(disk),
        first_free(disk) is Some,
    ensures
        ({
            let a = first_free(disk)->0;
            let taken = with_mark(disk, a, true);
            &&& is_data_addr(a)
            &&& !is_marked(disk, a)
            &&& is_marked(taken, a)
            &&& forall|b: u32| b != a ==> is_marked(taken, b) == is_marked(disk, b)
            &&& first_free(taken) != Some(a)
        }),
{
    let a = first_free(disk)->0;
    let taken = with_mark(disk, a, true);
    lemma_first_free_from(disk, 0);
    lemma_first_free_from(taken, 0);
    lemma_mark(disk, a, true, a);
    assert forall|b: u32| b != a implies is_marked(taken, b) == is_marked(disk, b) by {
        lemma_mark(disk, a, true, b);
    }
}

/// Where the bitmaps of two disks are the same, so are their free blocks.
pub proof fn lemma_first_free_same(disk: Seq<Seq<u8>>, other: Seq<Seq<u8>>, from: nat)
    requires
        forall|s: u32| is_bitmap_addr(s) ==> sector_of(disk, s) == sector_of(other, s),
    ensures
        first_free_from(disk, from) == first_free_from(other, from),
    decreases MAX_BLOCKS - from,
{
    if from < MAX_BLOCKS {
        let a = (DATA_ADDR_OFFSET + from) as u32;
        assert(is_bitmap_addr(mark_sector(a)));
        assert(sector_of(disk, mark_sector(a)) == sector_of(other, mark_sector(a)));
        lemma_first_free_same(disk, other, from + 1);
    }
}


/// Marking a free data block used and then free again leaves the disk,
/// and so the bitmap, byte for byte as it was.
pub proof fn theorem_taken_then_freed(disk: Seq<Seq<u8>>, addr: u32)
    requires
        disk_wf(disk),
        is_data_addr(addr),
        !is_marked(disk, addr),
    ensures
        with_mark(with_mark(disk, addr, true), addr, false) == disk,
{
    let s = sector_of(disk, mark_sector(addr));
    let taken = with_mark(disk, addr, true);
    lemma_bit_set_then_cleared(s[mark_byte(addr)], mark_bit(addr));
    assert(sector_of(taken, mark_sector(addr)) == s.update(
        mark_byte(addr),
        byte_with_bit(s[mark_byte(addr)], mark_bit(addr), true),
    ));
    let back = with_mark(taken, addr, false);
    assert(sector_of(back, mark_sector(addr)) =~= s);
    assert(back =~= disk);
}

} // verus!
