//! One block: the address of its successor, then 508 bytes of payload.

use crate::parva_fs::bitmap::{alloc_block, first_free, BlockBitmap};
use crate::parva_fs::block_device::BlockDevice;
use crate::parva_fs::layout::{
    be32, be_bytes, disk_put, from_be_bytes, put_be32, sector_of, zero_sector, SECTOR_COUNT,
};
use vstd::prelude::*;

verus! {

/// The address that a block's first four bytes name; 0 ends the chain.
pub open spec fn next_of(sector: Seq<u8>) -> u32 {
    be32(sector, 0)
}

/// The bytes of a block after its link.
pub open spec fn payload(sector: Seq<u8>) -> Seq<u8> {
    sector.subrange(4, 512)
}

/// A block in memory, and the address it was read from or is meant for.
#[derive(Clone, Copy)]
pub struct Block {
    pub addr: u32,
    pub buf: [u8; 512],
}

/// Calls the range index of a mutable slice, `&mut buf[4..]`: the bytes from
/// the fifth on, borrowed in place, so that what is written through the
/// result lands there and the first four stay.
#[verifier::external_body]
fn tail_mut(buf: &mut [u8; 512]) -> (r: &mut [u8])
    ensures
        r@ == old(buf)@.subrange(4, 512),
        final(r)@.len() == 508,
        final(buf)@ == old(buf)@.subrange(0, 4) + final(r)@,
{
    &mut buf[4..]
}

impl Block {
    /// A block of zeros meant for `addr`.
    pub fn new(addr: u32) -> (r: Self)
        ensures
            r.addr == addr,
            r.buf@ == zero_sector(),
    {
        let buf = [0u8; 512];
        assert(buf@ =~= zero_sector());
        Block { addr, buf }
    }

    /// The block at `addr` of the device.
    pub fn read(dev: &BlockDevice, addr: u32) -> (r: Self)
        ensures
            r.addr == addr,
            r.buf@ == sector_of(dev@, addr),
    {
        let mut buf = [0u8; 512];
        dev.read(addr, &mut buf);
        Block { addr, buf }
    }

    /// Takes the first free block of the data region: marks it used, fills
    /// it with zeros on the device and hands it back. `None`, and nothing
    /// written, when no block is free.
    pub fn allocate(dev: &mut BlockDevice) -> (r: Option<Self>)
        ensures
            final(dev).spec_bus() == old(dev).spec_bus(),
            final(dev).spec_dsk() == old(dev).spec_dsk(),
            old(dev).wf() ==> final(dev).wf(),
            match first_free(old(dev)@) {
                None => r is None && final(dev)@ == old(dev)@,
                Some(a) => {
                    &&& r is Some
                    &&& r->0.addr == a
                    &&& r->0.buf@ == zero_sector()
                    &&& final(dev)@ == alloc_block(old(dev)@, a)
                },
            },
    {
        match BlockBitmap::next_free_addr(dev) {
            None => None,
            Some(addr) => Some(Block::allocate_at(dev, addr)),
        }
    }

    /// Takes the block at `addr`: marks it used, fills it with zeros on the
    /// device and hands it back.
    pub fn allocate_at(dev: &mut BlockDevice, addr: u32) -> (r: Self)
        ensures
            final(dev).spec_bus() == old(dev).spec_bus(),
            final(dev).spec_dsk() == old(dev).spec_dsk(),
            old(dev).wf() ==> final(dev).wf(),
            r.addr == addr,
            r.buf@ == zero_sector(),
            final(dev)@ == alloc_block(old(dev)@, addr),
    {
        BlockBitmap::allocate(dev, addr);
        let mut block = Block::read(dev, addr);
        let mut i: usize = 0;
        while i < 512
            invariant
                i <= 512,
                block.addr == addr,
                forall|j: int| 0 <= j < i ==> block.buf@[j] == 0,
            decreases 512 - i,
        {
            block.buf[i] = 0;
            i += 1;
        }
        assert(block.buf@ =~= zero_sector());
        block.write(dev);
        block
    }

    /// Writes the block to its address on the device. On a device with all
    /// its sectors, a block at any address of the device is then what the
    /// device holds there, and no other sector changes.
    pub fn write(&self, dev: &mut BlockDevice)
        ensures
            final(dev)@ == disk_put(old(dev)@, self.addr, self.buf@),
            old(dev).wf() && self.addr < SECTOR_COUNT ==> sector_of(final(dev)@, self.addr)
                == self.buf@,
            forall|a: u32|
                a != self.addr ==> #[trigger] sector_of(final(dev)@, a) == sector_of(old(dev)@, a),
            final(dev).spec_bus() == old(dev).spec_bus(),
            final(dev).spec_dsk() == old(dev).spec_dsk(),
            old(dev).wf() ==> final(dev).wf(),
    {
        dev.write(self.addr, &self.buf);
    }

    /// The block's address.
    pub fn addr(&self) -> (r: u32)
        ensures
            r == self.addr,
    {
        self.addr
    }

    /// The payload.
    pub fn data(&self) -> (r: &[u8])
        ensures
            r@ == payload(self.buf@),
    {
        vstd::slice::slice_subrange(self.buf.as_slice(), 4, 512)
    }

    /// The payload, to write into.
    pub fn data_mut(&mut self) -> (r: &mut [u8])
        ensures
            r@ == payload(old(self).buf@),
            final(r)@.len() == 508,
            final(self).buf@ == old(self).buf@.subrange(0, 4) + final(r)@,
            final(self).addr == old(self).addr,
    {
        tail_mut(&mut self.buf)
    }

    /// The address of the successor, 0 when there is none.
    pub fn next_addr(&self) -> (r: u32)
        ensures
            r == next_of(self.buf@),
    {
        let r = from_be_bytes(self.buf[0], self.buf[1], self.buf[2], self.buf[3]);
        r
    }

    /// The successor, read from the device; `None` at the end of the chain.
    pub fn next(&self, dev: &BlockDevice) -> (r: Option<Self>)
        ensures
            next_of(self.buf@) == 0 ==> r is None,
            next_of(self.buf@) != 0 ==> r is Some && r->0.addr == next_of(self.buf@) && r->0.buf@
                == sector_of(dev@, next_of(self.buf@)),
    {
        let addr = self.next_addr();
        if addr == 0 {
            None
        } else {
            Some(Block::read(dev, addr))
        }
    }

    /// Makes `addr` the successor; 0 ends the chain here.
    pub fn set_next(&mut self, addr: u32)
        ensures
            final(self).addr == old(self).addr,
            final(self).buf@ == put_be32(old(self).buf@, 0, addr),
            next_of(final(self).buf@) == addr,
            payload(final(self).buf@) == payload(old(self).buf@),
    {
        let b = be_bytes(addr);
        self.buf[0] = b[0];
        self.buf[1] = b[1];
        self.buf[2] = b[2];
        self.buf[3] = b[3];
        assert(self.buf@ =~= put_be32(old(self).buf@, 0, addr));
        assert(payload(self.buf@) =~= payload(old(self).buf@));
    }
}

} // verus!
