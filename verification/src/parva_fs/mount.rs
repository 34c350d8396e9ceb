//! The filesystem in use: the mounted device and the current directory.

use crate::parva_fs::bitmap::{with_mark, BlockBitmap};
use crate::parva_fs::block_device::BlockDevice;
use crate::parva_fs::dir::Dir;
use crate::parva_fs::layout::{disk_put, disk_wf, DATA_ADDR_OFFSET, SUPERBLOCK_ADDR};
use crate::parva_fs::super_block::{
    has_signature, signature, signature_sector, SuperBlock, VERSION,
};
use vstd::prelude::*;
use vstd::string::StringExecFns;

verus! {

/// The mounted device, if any, and the directory against which relative
/// path names are resolved.
pub struct FileSystem {
    pub device: Option<BlockDevice>,
    pub dir: String,
}

/// The disk after formatting: the signature in the superblock, and the
/// root directory's block marked used.
pub open spec fn formatted(disk: Seq<Seq<u8>>) -> Seq<Seq<u8>> {
    with_mark(disk_put(disk, SUPERBLOCK_ADDR, signature_sector()), DATA_ADDR_OFFSET, true)
}

/// The index of the first device whose superblock has the signature; the
/// length where none has.
pub open spec fn first_formatted(devices: Seq<BlockDevice>) -> int
    decreases devices.len(),
{
    if devices.len() == 0 || has_signature(devices[0]@) {
        0
    } else {
        1 + first_formatted(devices.drop_first())
    }
}

/// `first_formatted` is within bounds, no device before it has the
/// signature, and the one at it, if any, has.
pub proof fn lemma_first_formatted(devices: Seq<BlockDevice>)
    ensures
        0 <= first_formatted(devices) <= devices.len(),
        forall|j: int| 0 <= j < first_formatted(devices) ==> !has_signature((#[trigger] devices[j])@),
        first_formatted(devices) < devices.len() ==> has_signature(
            devices[first_formatted(devices)]@,
        ),
    decreases devices.len(),
{
    if !(devices.len() == 0 || has_signature(devices[0]@)) {
        let rest = devices.drop_first();
        lemma_first_formatted(rest);
        assert forall|j: int| 0 <= j < first_formatted(devices) implies !has_signature((
        #[trigger] devices[j])@) by {
            if j > 0 {
                assert(devices[j] == rest[j - 1]);
            }
        }
    }
}

/// A formatted disk has the signature.
pub proof fn lemma_formatted_has_signature(disk: Seq<Seq<u8>>)
    requires
        disk_wf(disk),
    ensures
        has_signature(formatted(disk)),
        disk_wf(formatted(disk)),
{
    assert(signature_sector().take(8) =~= crate::parva_fs::super_block::magic());
}

impl FileSystem {
    /// The sectors of the mounted device; none where nothing is mounted.
    pub open spec fn disk(&self) -> Seq<Seq<u8>> {
        match self.device {
            Some(dev) => dev@,
            None => Seq::empty(),
        }
    }

    /// `self` is `before` but for what its device's sectors hold: the same
    /// current directory, a device mounted where one was, at the same place
    /// on the bus, and with all its sectors where it had them.
    pub open spec fn follows(&self, before: &FileSystem) -> bool {
        &&& self.dir == before.dir
        &&& self.device is Some == before.device is Some
        &&& self.device is Some ==> {
            &&& self.device->0.spec_bus() == before.device->0.spec_bus()
            &&& self.device->0.spec_dsk() == before.device->0.spec_dsk()
            &&& before.device->0.wf() ==> self.device->0.wf()
        }
    }

    /// Nothing mounted; the current directory is the root.
    pub fn new() -> (r: Self)
        ensures
            r.device is None,
            r.dir@ == "/"@,
    {
        FileSystem { device: None, dir: String::from_str("/") }
    }

    /// The current directory.
    pub fn dir(&self) -> (r: &str)
        ensures
            r@ == self.dir@,
    {
        self.dir.as_str()
    }

    /// Makes `dir` the current directory.
    pub fn set_dir(&mut self, dir: &str)
        ensures
            final(self).dir@ == dir@,
            final(self).device == old(self).device,
    {
        self.dir = String::from_str(dir);
    }

    /// Takes the mounted device out, leaving nothing mounted.
    pub fn unmount(&mut self) -> (r: Option<BlockDevice>)
        ensures
            r == old(self).device,
            final(self).device is None,
            final(self).dir == old(self).dir,
    {
        self.device.take()
    }
}

/// Whether a device is mounted.
pub fn is_mounted(fs: &FileSystem) -> (r: bool)
    ensures
        r == fs.device is Some,
{
    fs.device.is_some()
}

/// Makes `device` the mounted device, in place of any other.
pub fn mount(fs: &mut FileSystem, device: BlockDevice)
    ensures
        final(fs).device == Some(device),
        final(fs).dir == old(fs).dir,
{
    fs.device = Some(device);
}

/// Formats `device` and mounts it: writes the signature to its superblock
/// and marks the root directory's block used. Nothing else on it changes.
pub fn format(fs: &mut FileSystem, device: BlockDevice)
    ensures
        final(fs).dir == old(fs).dir,
        final(fs).device is Some,
        final(fs).device->0@ == formatted(device@),
        final(fs).device->0.spec_bus() == device.spec_bus(),
        final(fs).device->0.spec_dsk() == device.spec_dsk(),
        device.wf() ==> final(fs).device->0.wf() && has_signature(final(fs).device->0@),
{
    let mut device = device;
    let sb = SuperBlock {
        signature: signature(),
        version: VERSION,
        block_size: 512,
        block_count: 0,
        alloc_count: 0,
    };
    let ghost blank = device@;
    sb.write(&mut device);
    assert(device@ =~= disk_put(blank, SUPERBLOCK_ADDR, signature_sector())) by {
        assert(Seq::new(
            512,
            |i: int|
                if i < 8 {
                    sb.signature@[i]
                } else {
                    0u8
                },
        ) =~= signature_sector());
    }
    let root = Dir::root();
    BlockBitmap::allocate(&mut device, root.addr());
    proof {
        if device.wf() {
            lemma_formatted_has_signature(device@);
        }
    }
    mount(fs, device);
}

/// Probes the devices in order and mounts the first whose superblock has
/// the signature. Where none has, what is mounted stays.
pub fn init(fs: &mut FileSystem, devices: Vec<BlockDevice>)
    ensures
        final(fs).dir == old(fs).dir,
        first_formatted(devices@) < devices@.len() ==> final(fs).device == Some(
            devices@[first_formatted(devices@)],
        ),
        first_formatted(devices@) >= devices@.len() ==> final(fs).device == old(fs).device,
{
    let ghost all = devices@;
    let mut pool = devices;
    let mut k: usize = 0;
    while k < pool.len()
        invariant
            pool@ == all,
            devices@ == all,
            k <= all.len(),
            forall|j: int| 0 <= j < k ==> !has_signature((#[trigger] all[j])@),
            *fs == *old(fs),
        decreases all.len() - k,
    {
        if SuperBlock::read(&pool[k]) {
            proof {
                lemma_first_formatted(all);
                if first_formatted(all) < k {
                    assert(!has_signature(all[first_formatted(all)]@));
                }
                if first_formatted(all) > k {
                    assert(!has_signature(all[k as int]@));
                }
            }
            let device = pool.remove(k);
            mount(fs, device);
            return ;
        }
        k += 1;
    }
    proof {
        lemma_first_formatted(all);
        if first_formatted(all) < all.len() {
            assert(!has_signature(all[first_formatted(all)]@));
        }
    }
}


/// A probe mounts a device that was formatted where none before it in the
/// order of the probe has the signature; and it mounts only a device that
/// has the signature.
pub proof fn theorem_format_then_probe(devices: Seq<BlockDevice>, k: int, blank: Seq<Seq<u8>>)
    requires
        0 <= k < devices.len(),
        disk_wf(blank),
        devices[k]@ == formatted(blank),
        forall|j: int| 0 <= j < k ==> !has_signature((#[trigger] devices[j])@),
    ensures
        first_formatted(devices) == k,
{
    lemma_first_formatted(devices);
    lemma_formatted_has_signature(blank);
    let f = first_formatted(devices);
    if f < k {
        assert(!has_signature(devices[f]@));
    }
}

/// A probe of devices of which none has the signature mounts none.
pub proof fn theorem_probe_skips_unformatted(devices: Seq<BlockDevice>)
    requires
        forall|j: int| 0 <= j < devices.len() ==> !has_signature((#[trigger] devices[j])@),
    ensures
        first_formatted(devices) == devices.len(),
{
    lemma_first_formatted(devices);
    let f = first_formatted(devices);
    if f < devices.len() {
        assert(!has_signature(devices[f]@));
    }
}

} // verus!
