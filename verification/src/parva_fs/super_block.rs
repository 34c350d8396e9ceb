//! The superblock: the sector whose first eight bytes tell a formatted disk
//! from any other.

use crate::parva_fs::block_device::BlockDevice;
use crate::parva_fs::layout::{disk_put, sector_of, SUPERBLOCK_ADDR};
use crate::parva_fs::mount::FileSystem;
use vstd::prelude::*;

verus! {

/// The version of the layout.
pub const VERSION: u8 = 1;

/// The signature: the ASCII string `PARVA FS`.
pub open spec fn magic() -> Seq<u8> {
    seq![0x50u8, 0x41u8, 0x52u8, 0x56u8, 0x41u8, 0x20u8, 0x46u8, 0x53u8]
}

/// The superblock of a formatted disk: the signature, then zeros.
pub open spec fn signature_sector() -> Seq<u8> {
    Seq::new(
        512,
        |i: int|
            if i < 8 {
                magic()[i]
            } else {
                0u8
            },
    )
}

/// Whether the disk's superblock starts with the signature.
pub open spec fn has_signature(disk: Seq<Seq<u8>>) -> bool {
    sector_of(disk, SUPERBLOCK_ADDR).take(8) == magic()
}

/// The signature as bytes.
pub fn signature() -> (r: [u8; 8])
    ensures
        r@ == magic(),
{
    let r = [0x50u8, 0x41u8, 0x52u8, 0x56u8, 0x41u8, 0x20u8, 0x46u8, 0x53u8];
    assert(r@ =~= magic());
    r
}

/// What a superblock says of its disk.
#[derive(Clone, Copy, Debug)]
pub struct SuperBlock {
    pub signature: [u8; 8],
    pub version: u8,
    pub block_size: u32,
    pub block_count: u32,
    pub alloc_count: u32,
}

impl SuperBlock {
    /// The superblock for the mounted device: its sector size and count,
    /// and nothing allocated. `None` where no device is mounted.
    pub fn new(fs: &FileSystem) -> (r: Option<Self>)
        ensures
            r is Some <==> fs.device is Some,
            r matches Some(sb) ==> {
                &&& sb.signature@ == magic()
                &&& sb.version == VERSION
                &&& sb.block_size == 512
                &&& fs.device->0.wf() ==> sb.block_count == fs.device->0@.len()
                &&& sb.alloc_count == 0
            },
    {
        match &fs.device {
            Some(dev) => Some(
                SuperBlock {
                    signature: signature(),
                    version: VERSION,
                    block_size: dev.block_size(),
                    block_count: dev.block_count(),
                    alloc_count: 0,
                },
            ),
            None => None,
        }
    }

    /// Whether the device's superblock starts with the signature.
    pub fn read(dev: &BlockDevice) -> (r: bool)
        ensures
            r == has_signature(dev@),
    {
        let mut buf = [0u8; 512];
        dev.read(SUPERBLOCK_ADDR, &mut buf);
        let sig = signature();
        let mut i: usize = 0;
        while i < 8
            invariant
                i <= 8,
                sig@ == magic(),
                buf@ == sector_of(dev@, SUPERBLOCK_ADDR),
                forall|j: int| 0 <= j < i ==> buf@[j] == magic()[j],
            decreases 8 - i,
        {
            if buf[i] != sig[i] {
                assert(buf@.take(8)[i as int] != magic()[i as int]);
                return false;
            }
            i += 1;
        }
        assert(buf@.take(8) =~= magic());
        true
    }

    /// Writes the superblock's signature, followed by zeros, to the
    /// device's superblock.
    pub fn write(&self, dev: &mut BlockDevice)
        ensures
            final(dev)@ == disk_put(
                old(dev)@,
                SUPERBLOCK_ADDR,
                Seq::new(
                    512,
                    |i: int|
                        if i < 8 {
                            self.signature@[i]
                        } else {
                            0u8
                        },
                ),
            ),
            final(dev).spec_bus() == old(dev).spec_bus(),
            final(dev).spec_dsk() == old(dev).spec_dsk(),
            old(dev).wf() ==> final(dev).wf(),
    {
        let mut buf = [0u8; 512];
        let mut i: usize = 0;
        while i < 8
            invariant
                i <= 8,
                forall|j: int|
                    0 <= j < 512 ==> buf@[j] == (if j < i {
                        self.signature@[j]
                    } else {
                        0u8
                    }),
            decreases 8 - i,
        {
            buf[i] = self.signature[i];
            i += 1;
        }
        assert(buf@ =~= Seq::new(
            512,
            |i: int|
                if i < 8 {
                    self.signature@[i]
                } else {
                    0u8
                },
        ));
        dev.write(SUPERBLOCK_ADDR, &buf);
    }
}

} // verus!
