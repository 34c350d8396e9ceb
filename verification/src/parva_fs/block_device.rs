//! A drive on a channel, as the array of sectors that the filesystem sees.

use crate::parva_fs::layout::{disk_put, disk_wf, sector_of, zero_sector, SECTOR_COUNT};
use vstd::prelude::*;

verus! {

/// One drive: the channel and the drive number that select it, and its
/// sectors. Whoever owns the bus fills the sectors from the drive and writes
/// them back; the filesystem works on them here.
pub struct BlockDevice {
    bus: u8,
    dsk: u8,
    sectors: Vec<[u8; 512]>,
}

impl View for BlockDevice {
    type V = Seq<Seq<u8>>;

    closed spec fn view(&self) -> Seq<Seq<u8>> {
        Seq::new(self.sectors@.len(), |a: int| self.sectors@[a]@)
    }
}

impl BlockDevice {
    /// The channel this drive is on.
    pub closed spec fn spec_bus(&self) -> u8 {
        self.bus
    }

    /// The drive's number on its channel.
    pub closed spec fn spec_dsk(&self) -> u8 {
        self.dsk
    }

    /// The device has all its sectors.
    pub open spec fn wf(&self) -> bool {
        disk_wf(self@)
    }

    /// A blank drive: every sector is zeros.
    pub fn new(bus: u8, dsk: u8) -> (r: Self)
        ensures
            r.wf(),
            r.spec_bus() == bus,
            r.spec_dsk() == dsk,
            forall|a: u32| sector_of(r@, a) == zero_sector(),
    {
        let mut sectors: Vec<[u8; 512]> = Vec::new();
        let mut n: u32 = 0;
        while n < SECTOR_COUNT
            invariant
                n <= SECTOR_COUNT,
                sectors@.len() == n,
                forall|a: int| 0 <= a < n ==> (#[trigger] sectors@[a])@ =~= zero_sector(),
            decreases SECTOR_COUNT - n,
        {
            let z = [0u8; 512];
            assert(z@ =~= zero_sector());
            sectors.push(z);
            n += 1;
        }
        let r = BlockDevice { bus, dsk, sectors };
        assert forall|a: u32| sector_of(r@, a) == zero_sector() by {}
        r
    }

    /// The channel this drive is on.
    pub fn bus(&self) -> (r: u8)
        ensures
            r == self.spec_bus(),
    {
        self.bus
    }

    /// The drive's number on its channel.
    pub fn dsk(&self) -> (r: u8)
        ensures
            r == self.spec_dsk(),
    {
        self.dsk
    }

    /// Bytes in a sector.
    pub fn block_size(&self) -> (r: u32)
        ensures
            r == 512,
    {
        512
    }

    /// Sectors on the device.
    pub fn block_count(&self) -> (r: u32)
        ensures
            r == (if self@.len() <= u32::MAX {
                self@.len()
            } else {
                u32::MAX as nat
            }),
            self.wf() ==> r == SECTOR_COUNT,
    {
        let n = self.sectors.len();
        if n > u32::MAX as usize {
            u32::MAX
        } else {
            n as u32
        }
    }

    /// Copies the sector at `block` into `buf`.
    pub fn read(&self, block: u32, buf: &mut [u8])
        requires
            old(buf)@.len() == 512,
        ensures
            final(buf)@ == sector_of(self@, block),
    {
        let mut k: usize = 0;
        if (block as usize) < self.sectors.len() {
            while k < 512
                invariant
                    k <= 512,
                    buf@.len() == 512,
                    (block as int) < self.sectors@.len(),
                    forall|j: int| 0 <= j < k ==> buf@[j] == self.sectors@[block as int]@[j],
                decreases 512 - k,
            {
                buf[k] = self.sectors[block as usize][k];
                k += 1;
            }
        } else {
            while k < 512
                invariant
                    k <= 512,
                    buf@.len() == 512,
                    forall|j: int| 0 <= j < k ==> buf@[j] == 0,
                decreases 512 - k,
            {
                buf[k] = 0;
                k += 1;
            }
        }
        assert(buf@ =~= sector_of(self@, block));
    }

    /// Replaces the sector at `block` by `buf`.
    pub fn write(&mut self, block: u32, buf: &[u8])
        requires
            buf@.len() == 512,
        ensures
            final(self)@ == disk_put(old(self)@, block, buf@),
            final(self).spec_bus() == old(self).spec_bus(),
            final(self).spec_dsk() == old(self).spec_dsk(),
            old(self).wf() ==> final(self).wf(),
    {
        if (block as usize) < self.sectors.len() {
            let mut a = [0u8; 512];
            let mut k: usize = 0;
            while k < 512
                invariant
                    k <= 512,
                    buf@.len() == 512,
                    forall|j: int| 0 <= j < k ==> a@[j] == buf@[j],
                decreases 512 - k,
            {
                a[k] = buf[k];
                k += 1;
            }
            assert(a@ =~= buf@);
            self.sectors[block as usize] = a;
        }
        assert(self@ =~= disk_put(old(self)@, block, buf@));
    }
}

} // verus!
