//! Directories: records of ten bytes and a name, appended to a chain of
//! blocks and never removed, only marked dead.

use crate::parva_fs::bitmap::{alloc_block, first_free, first_free_from, with_mark, BlockBitmap};
use crate::parva_fs::block::{next_of, payload, Block};
use crate::parva_fs::block_device::BlockDevice;
use crate::parva_fs::layout::{
    be32, be_byte, be_bytes, disk_put, from_be_bytes, put_be32, sector_of, zero_sector,
    DATA_ADDR_OFFSET, MAX_HOPS,
};
use crate::parva_fs::mount::FileSystem;
use crate::parva_fs::path::{dirname, dirname_of, filename, filename_of, real_path, realpath, SLASH};
use vstd::prelude::*;
use vstd::string::StringSliceAdditionalSpecFns;

verus! {

/// What a directory entry names.
#[derive(Clone, Copy, Debug, PartialEq, Eq, Structural)]
pub enum FileType {
    Dir,
    File,
}

/// A directory: the address of the first block of its chain.
#[derive(Clone, Copy, Debug, PartialEq, Eq, Structural)]
pub struct Dir {
    pub addr: u32,
}

/// A record as it lies in a directory block: where it is, and what its
/// fields hold. A record whose address is 0 is dead.
pub struct Slot {
    pub block: u32,
    pub offset: int,
    pub kind: FileType,
    pub addr: u32,
    pub size: u32,
    pub name: Seq<u8>,
}

/// Whether a record starts at `at` of the payload `p`: a kind byte of 0 or
/// 1, a name of at least one byte, and room for all of it.
pub open spec fn entry_ok(p: Seq<u8>, at: int) -> bool {
    &&& 0 <= at
    &&& at + 10 < 508
    &&& (p[at] == 0 || p[at] == 1)
    &&& p[at + 9] != 0
    &&& at + 10 + p[at + 9] <= 508
}

/// The offset just past the record at `at`.
pub open spec fn entry_end(p: Seq<u8>, at: int) -> int {
    at + 10 + p[at + 9] as int
}

/// The kind that a kind byte stands for.
pub open spec fn kind_of(byte: u8) -> FileType {
    if byte == 0 {
        FileType::Dir
    } else {
        FileType::File
    }
}

/// The byte that stands for a kind.
pub open spec fn kind_byte(kind: FileType) -> u8 {
    match kind {
        FileType::Dir => 0,
        FileType::File => 1,
    }
}

/// The record at `at` of the payload `p` of the block `block`.
pub open spec fn slot_at(block: u32, p: Seq<u8>, at: int) -> Slot {
    Slot {
        block,
        offset: at,
        kind: kind_of(p[at]),
        addr: be32(p, at + 1),
        size: be32(p, at + 5),
        name: p.subrange(at + 10, entry_end(p, at)),
    }
}

/// The records of one block from `at` on, in order, dead ones included. The
/// scan of a block stops at the first offset where no record starts.
pub open spec fn block_slots(block: u32, p: Seq<u8>, at: int) -> Seq<Slot>
    decreases 508 - at,
{
    if entry_ok(p, at) {
        seq![slot_at(block, p, at)] + block_slots(block, p, entry_end(p, at))
    } else {
        Seq::empty()
    }
}

/// The offset at which the scan of a block, started at `at`, stops.
pub open spec fn scan_end(p: Seq<u8>, at: int) -> int
    decreases 508 - at,
{
    if entry_ok(p, at) {
        scan_end(p, entry_end(p, at))
    } else {
        at
    }
}

/// The records of the chain that starts at `addr`, following at most `hops`
/// blocks. Address 0 is no block.
pub open spec fn chain_slots(disk: Seq<Seq<u8>>, addr: u32, hops: nat) -> Seq<Slot>
    decreases hops,
{
    if addr == 0 || hops == 0 {
        Seq::empty()
    } else {
        let s = sector_of(disk, addr);
        block_slots(addr, payload(s), 0) + chain_slots(disk, next_of(s), (hops - 1) as nat)
    }
}

/// The records of the directory whose first block is `addr`.
pub open spec fn dir_slots(disk: Seq<Seq<u8>>, addr: u32) -> Seq<Slot> {
    let s = sector_of(disk, addr);
    block_slots(addr, payload(s), 0) + chain_slots(disk, next_of(s), MAX_HOPS as nat)
}

/// The index of the first record that is not dead; the length where all are.
pub open spec fn live_index(slots: Seq<Slot>) -> int
    decreases slots.len(),
{
    if slots.len() == 0 || slots[0].addr != 0 {
        0
    } else {
        1 + live_index(slots.drop_first())
    }
}

/// The index of the first live record with the name `name`; the length
/// where there is none.
pub open spec fn find_index(slots: Seq<Slot>, name: Seq<u8>) -> int
    decreases slots.len(),
{
    if slots.len() == 0 || (slots[0].addr != 0 && slots[0].name == name) {
        0
    } else {
        1 + find_index(slots.drop_first(), name)
    }
}

/// `live_index` is within bounds, every record before it is dead, and the
/// one at it, if any, is live.
pub proof fn lemma_live_index(slots: Seq<Slot>)
    ensures
        0 <= live_index(slots) <= slots.len(),
        forall|j: int| 0 <= j < live_index(slots) ==> (#[trigger] slots[j]).addr == 0,
        live_index(slots) < slots.len() ==> slots[live_index(slots)].addr != 0,
    decreases slots.len(),
{
    if slots.len() != 0 && slots[0].addr == 0 {
        let rest = slots.drop_first();
        lemma_live_index(rest);
        assert forall|j: int| 0 <= j < live_index(slots) implies (#[trigger] slots[j]).addr
            == 0 by {
            if j > 0 {
                assert(slots[j] == rest[j - 1]);
            }
        }
    }
}

/// `find_index` is within bounds, no record before it is live under the
/// name, and the one at it, if any, is.
pub proof fn lemma_find_index(slots: Seq<Slot>, name: Seq<u8>)
    ensures
        0 <= find_index(slots, name) <= slots.len(),
        forall|j: int|
            0 <= j < find_index(slots, name) ==> !((#[trigger] slots[j]).addr != 0 && slots[j].name
                == name),
        find_index(slots, name) < slots.len() ==> slots[find_index(slots, name)].addr != 0
            && slots[find_index(slots, name)].name == name,
    decreases slots.len(),
{
    if !(slots.len() == 0 || (slots[0].addr != 0 && slots[0].name == name)) {
        let rest = slots.drop_first();
        lemma_find_index(rest, name);
        assert forall|j: int| 0 <= j < find_index(slots, name) implies !((
        #[trigger] slots[j]).addr != 0 && slots[j].name == name) by {
            if j > 0 {
                assert(slots[j] == rest[j - 1]);
            }
        }
    }
}

/// `find_index` is the one index of the first live record
/// under the name.
pub proof fn lemma_find_index_is(slots: Seq<Slot>, name: Seq<u8>, k: int)
    requires
        0 <= k <= slots.len(),
        forall|j: int| 0 <= j < k ==> !((#[trigger] slots[j]).addr != 0 && slots[j].name == name),
        k < slots.len() ==> slots[k].addr != 0 && slots[k].name == name,
    ensures
        find_index(slots, name) == k,
{
    lemma_find_index(slots, name);
    let f = find_index(slots, name);
    if f < k {
        assert(!(slots[f].addr != 0 && slots[f].name == name));
    }
}

/// An entry of a directory, as a scan hands it out.
#[derive(Clone, Debug)]
pub struct DirEntry {
    pub dir: Dir,
    pub kind: FileType,
    pub addr: u32,
    pub size: u32,
    pub name: Vec<u8>,
}

impl DirEntry {
    /// The entry holds what the record `slot` of the directory `dir` holds.
    pub open spec fn is_slot(&self, dir: Dir, slot: Slot) -> bool {
        &&& self.dir == dir
        &&& self.kind == slot.kind
        &&& self.addr == slot.addr
        &&& self.size == slot.size
        &&& self.name@ == slot.name
    }
}

/// A scan of a directory in progress: the block it is in, the offset within
/// that block's payload from which it goes on, and how many more blocks it
/// may follow.
pub struct ReadDir {
    pub dir: Dir,
    pub block: Block,
    pub data_offset: usize,
    pub hops: u32,
}

impl ReadDir {
    /// The records that the scan has yet to pass.
    pub open spec fn remaining(&self, disk: Seq<Seq<u8>>) -> Seq<Slot> {
        block_slots(self.block.addr, payload(self.block.buf@), self.data_offset as int)
            + chain_slots(disk, next_of(self.block.buf@), self.hops as nat)
    }

    /// The block in memory is the one on the disk.
    pub open spec fn in_sync(&self, disk: Seq<Seq<u8>>) -> bool {
        self.block.buf@ == sector_of(disk, self.block.addr)
    }

    /// The next live entry, or `None` when the scan is over. Dead records
    /// are passed over; a block is left at the first offset where no record
    /// starts.
    pub fn next(&mut self, dev: &BlockDevice) -> (r: Option<DirEntry>)
        ensures
            final(self).dir == old(self).dir,
            old(self).in_sync(dev@) ==> final(self).in_sync(dev@),
            ({
                let slots = old(self).remaining(dev@);
                let k = live_index(slots);
                match r {
                    Some(e) => {
                        &&& k < slots.len()
                        &&& e.is_slot(old(self).dir, slots[k])
                        &&& final(self).remaining(dev@) == slots.skip(k + 1)
                        &&& final(self).block.addr == slots[k].block
                        &&& final(self).data_offset == slots[k].offset + 10 + slots[k].name.len()
                        &&& 0 <= slots[k].offset
                        &&& final(self).data_offset <= 508
                        &&& entry_ok(payload(final(self).block.buf@), slots[k].offset)
                        &&& slots[k] == slot_at(
                            slots[k].block,
                            payload(final(self).block.buf@),
                            slots[k].offset,
                        )
                    },
                    None => k == slots.len() && final(self).remaining(dev@) == Seq::<Slot>::empty(),
                }
            }),
    {
        let ghost slots = self.remaining(dev@);
        let ghost mut passed: int = 0;
        proof {
            lemma_live_index(slots);
            assert(slots.skip(0) =~= slots);
        }
        loop
            invariant
                self.dir == old(self).dir,
                old(self).in_sync(dev@) ==> self.in_sync(dev@),
                slots == old(self).remaining(dev@),
                0 <= passed <= slots.len(),
                self.remaining(dev@) == slots.skip(passed),
                forall|j: int| 0 <= j < passed ==> (#[trigger] slots[j]).addr == 0,
            decreases self.hops, 508 - self.data_offset,
        {
            let ghost p = payload(self.block.buf@);
            let ghost rem = self.remaining(dev@);
            let data = self.block.data();
            let i = self.data_offset;
            if i < 498 && (data[i] == 0 || data[i] == 1) && data[i + 9] != 0 && i + 10
                + data[i + 9] as usize <= 508 {
                assert(entry_ok(p, i as int));
                let kind = if data[i] == 0 {
                    FileType::Dir
                } else {
                    FileType::File
                };
                let addr = from_be_bytes(data[i + 1], data[i + 2], data[i + 3], data[i + 4]);
                let size = from_be_bytes(data[i + 5], data[i + 6], data[i + 7], data[i + 8]);
                let n = data[i + 9] as usize;
                let mut name: Vec<u8> = Vec::new();
                let mut j: usize = 0;
                while j < n
                    invariant
                        j <= n,
                        i + 10 + n <= 508,
                        data@ == p,
                        p.len() == 508,
                        name@ == p.subrange(i + 10, i + 10 + j),
                    decreases n - j,
                {
                    name.push(data[i + 10 + j]);
                    j += 1;
                    assert(name@ =~= p.subrange(i + 10, i + 10 + j));
                }
                let ghost slot = slot_at(self.block.addr, p, i as int);
                proof {
                    let rest = block_slots(self.block.addr, p, entry_end(p, i as int));
                    let tail = chain_slots(dev@, next_of(self.block.buf@), self.hops as nat);
                    assert(rem =~= seq![slot] + (rest + tail));
                    assert(rem[0] == slot);
                    assert(slots[passed] == rem[0]);
                    assert(rem.skip(1) =~= rest + tail);
                    assert(slots.skip(passed + 1) =~= rem.skip(1));
                }
                self.data_offset = i + 10 + n;
                if addr != 0 {
                    proof {
                        lemma_live_index_is(slots, passed);
                    }
                    return Some(DirEntry { dir: self.dir, kind, addr, size, name });
                }
                proof {
                    passed = passed + 1;
                }
            } else {
                assert(!entry_ok(p, i as int));
                let next = self.block.next_addr();
                if next == 0 || self.hops == 0 {
                    proof {
                        assert(rem =~= Seq::<Slot>::empty());
                        assert(passed == slots.len());
                        lemma_live_index_is(slots, passed);
                    }
                    return None;
                }
                self.block = Block::read(dev, next);
                self.data_offset = 0;
                self.hops = self.hops - 1;
                proof {
                    assert(self.remaining(dev@) =~= rem);
                }
            }
        }
    }
}

/// `live_index` is the one index of the first live record.
pub proof fn lemma_live_index_is(slots: Seq<Slot>, k: int)
    requires
        0 <= k <= slots.len(),
        forall|j: int| 0 <= j < k ==> (#[trigger] slots[j]).addr == 0,
        k < slots.len() ==> slots[k].addr != 0,
    ensures
        live_index(slots) == k,
{
    lemma_live_index(slots);
    let f = live_index(slots);
    if f < k {
        assert(slots[f].addr == 0);
    }
}


/// The last block that a walk from `addr` reaches: the first without a
/// successor, or the one at which `hops` run out.
pub open spec fn tail_of(disk: Seq<Seq<u8>>, addr: u32, hops: nat) -> u32
    decreases hops,
{
    let next = next_of(sector_of(disk, addr));
    if next == 0 || hops == 0 {
        addr
    } else {
        tail_of(disk, next, (hops - 1) as nat)
    }
}

/// The block of the directory `dir` to which a new record is appended.
pub open spec fn dir_tail(disk: Seq<Seq<u8>>, dir: u32) -> u32 {
    tail_of(disk, dir, MAX_HOPS as nat)
}

/// The offset in the payload of the tail block at which a new record goes.
pub open spec fn dir_tail_offset(disk: Seq<Seq<u8>>, dir: u32) -> int {
    scan_end(payload(sector_of(disk, dir_tail(disk, dir))), 0)
}

/// The bytes of a record: kind, address, size, length of the name, name.
pub open spec fn entry_image(kind: FileType, addr: u32, size: u32, name: Seq<u8>) -> Seq<u8> {
    seq![
        kind_byte(kind),
        be_byte(addr, 0),
        be_byte(addr, 1),
        be_byte(addr, 2),
        be_byte(addr, 3),
        be_byte(size, 0),
        be_byte(size, 1),
        be_byte(size, 2),
        be_byte(size, 3),
        name.len() as u8,
    ] + name
}

/// `sector` with `image` written over it from `at` on.
pub open spec fn splice(sector: Seq<u8>, at: int, image: Seq<u8>) -> Seq<u8> {
    Seq::new(
        sector.len(),
        |j: int|
            if at <= j < at + image.len() {
                image[j - at]
            } else {
                sector[j]
            },
    )
}

/// Whether the tail block of `dir` has room for a record with this name.
pub open spec fn tail_has_room(disk: Seq<Seq<u8>>, dir: u32, name: Seq<u8>) -> bool {
    dir_tail_offset(disk, dir) + 10 + name.len() <= 508
}

/// The second free data block: the first after the first.
pub open spec fn second_free(disk: Seq<Seq<u8>>) -> Option<u32> {
    match first_free(disk) {
        Some(a) => first_free_from(disk, (a - DATA_ADDR_OFFSET + 1) as nat),
        None => None,
    }
}

/// Whether a record named `name` can be added to `dir`: the name has 1 to
/// 255 bytes and no live record bears it, the chain of `dir` ends, and there
/// is a free block for the new entry's content, and a second one where the
/// tail block has no room for the record.
pub open spec fn can_create(disk: Seq<Seq<u8>>, dir: u32, name: Seq<u8>) -> bool {
    &&& 1 <= name.len() <= 255
    &&& find_index(dir_slots(disk, dir), name) == dir_slots(disk, dir).len()
    &&& next_of(sector_of(disk, dir_tail(disk, dir))) == 0
    &&& first_free(disk) is Some
    &&& !tail_has_room(disk, dir, name) ==> second_free(disk) is Some
}

/// The address of the content block that a new entry of `dir` gets: the
/// first free block, or the second where the first becomes the new tail of
/// the directory.
pub open spec fn created_addr(disk: Seq<Seq<u8>>, dir: u32, name: Seq<u8>) -> u32 {
    if tail_has_room(disk, dir, name) {
        first_free(disk)->0
    } else {
        second_free(disk)->0
    }
}

/// The disk after a record of `kind` named `name` is added to `dir`.
pub open spec fn created(disk: Seq<Seq<u8>>, dir: u32, kind: FileType, name: Seq<u8>) -> Seq<
    Seq<u8>,
> {
    let tail = dir_tail(disk, dir);
    let a1 = first_free(disk)->0;
    if tail_has_room(disk, dir, name) {
        disk_put(
            alloc_block(disk, a1),
            tail,
            splice(
                sector_of(disk, tail),
                4 + dir_tail_offset(disk, dir),
                entry_image(kind, a1, 0, name),
            ),
        )
    } else {
        let a2 = second_free(disk)->0;
        let linked = disk_put(alloc_block(disk, a1), tail, put_be32(sector_of(disk, tail), 0, a1));
        disk_put(
            alloc_block(linked, a2),
            a1,
            splice(zero_sector(), 4, entry_image(kind, a2, 0, name)),
        )
    }
}

/// The disk after the blocks of the chain from `addr` are marked free, at
/// most `hops` successors followed.
pub open spec fn free_chain(disk: Seq<Seq<u8>>, addr: u32, hops: nat) -> Seq<Seq<u8>>
    decreases hops,
{
    let next = next_of(sector_of(disk, addr));
    let freed = with_mark(disk, addr, false);
    if next == 0 || hops == 0 {
        freed
    } else {
        free_chain(freed, next, (hops - 1) as nat)
    }
}

/// The disk after the live record of `dir` named `name` is made dead and its
/// chain freed. Where there is no such record, the disk as it is.
pub open spec fn deleted(disk: Seq<Seq<u8>>, dir: u32, name: Seq<u8>) -> Seq<Seq<u8>> {
    let slots = dir_slots(disk, dir);
    let k = find_index(slots, name);
    if k < slots.len() {
        let slot = slots[k];
        let dead = disk_put(
            disk,
            slot.block,
            put_be32(sector_of(disk, slot.block), 4 + slot.offset + 1, 0),
        );
        free_chain(dead, slot.addr, MAX_HOPS as nat)
    } else {
        disk
    }
}

/// The disk after the size of the live record of `dir` named `name` is set
/// to `size`. Where there is no such record, the disk as it is.
pub open spec fn resized(disk: Seq<Seq<u8>>, dir: u32, name: Seq<u8>, size: u32) -> Seq<Seq<u8>> {
    let slots = dir_slots(disk, dir);
    let k = find_index(slots, name);
    if k < slots.len() {
        let slot = slots[k];
        disk_put(
            disk,
            slot.block,
            put_be32(sector_of(disk, slot.block), 4 + slot.offset + 5, size),
        )
    } else {
        disk
    }
}

/// Whether two byte strings are the same.
pub fn bytes_eq(a: &[u8], b: &[u8]) -> (r: bool)
    ensures
        r == (a@ == b@),
{
    if a.len() != b.len() {
        return false;
    }
    let mut i: usize = 0;
    while i < a.len()
        invariant
            i <= a.len(),
            a.len() == b.len(),
            forall|j: int| 0 <= j < i ==> a@[j] == b@[j],
        decreases a.len() - i,
    {
        if a[i] != b[i] {
            return false;
        }
        i += 1;
    }
    assert(a@ =~= b@);
    true
}

impl Dir {
    /// The root directory: the first block of the data region.
    pub fn root() -> (r: Self)
        ensures
            r.addr == DATA_ADDR_OFFSET,
    {
        Dir { addr: DATA_ADDR_OFFSET }
    }

    /// The address of the directory's first block.
    pub fn addr(&self) -> (r: u32)
        ensures
            r == self.addr,
    {
        self.addr
    }

    /// A scan of the directory, at its start.
    pub fn read(&self, dev: &BlockDevice) -> (r: ReadDir)
        ensures
            r.dir == *self,
            r.in_sync(dev@),
            r.remaining(dev@) == dir_slots(dev@, self.addr),
    {
        ReadDir { dir: *self, block: Block::read(dev, self.addr), data_offset: 0, hops: MAX_HOPS }
    }

    /// The first live entry named `name`, with the scan stopped just past
    /// its record.
    fn locate(&self, dev: &BlockDevice, name: &[u8]) -> (r: Option<(ReadDir, DirEntry)>)
        ensures
            ({
                let slots = dir_slots(dev@, self.addr);
                let k = find_index(slots, name@);
                match r {
                    Some((rd, e)) => {
                        &&& k < slots.len()
                        &&& e.is_slot(*self, slots[k])
                        &&& rd.block.addr == slots[k].block
                        &&& rd.in_sync(dev@)
                        &&& 0 <= slots[k].offset
                        &&& rd.data_offset == slots[k].offset + 10 + slots[k].name.len()
                        &&& rd.data_offset <= 508
                    },
                    None => k == slots.len(),
                }
            }),
    {
        let mut rd = self.read(dev);
        let ghost slots = dir_slots(dev@, self.addr);
        let ghost mut passed: int = 0;
        proof {
            assert(slots.skip(0) =~= slots);
        }
        loop
            invariant
                rd.dir == *self,
                rd.in_sync(dev@),
                slots == dir_slots(dev@, self.addr),
                0 <= passed <= slots.len(),
                rd.remaining(dev@) == slots.skip(passed),
                forall|j: int|
                    0 <= j < passed ==> !((#[trigger] slots[j]).addr != 0 && slots[j].name
                        == name@),
            decreases slots.len() - passed,
        {
            let ghost rem = rd.remaining(dev@);
            proof {
                lemma_live_index(rem);
            }
            match rd.next(dev) {
                None => {
                    proof {
                        assert(passed + live_index(rem) == slots.len());
                        assert forall|j: int| 0 <= j < slots.len() implies !((
                        #[trigger] slots[j]).addr != 0 && slots[j].name == name@) by {
                            if j >= passed {
                                assert(slots[j] == rem[j - passed]);
                            }
                        }
                        lemma_find_index_is(slots, name@, slots.len() as int);
                    }
                    return None;
                },
                Some(e) => {
                    let ghost k = passed + live_index(rem);
                    proof {
                        assert(slots[k] == rem[live_index(rem)]);
                        assert forall|j: int| passed <= j < k implies (#[trigger] slots[j]).addr
                            == 0 by {
                            assert(slots[j] == rem[j - passed]);
                        }
                    }
                    if bytes_eq(e.name.as_slice(), name) {
                        proof {
                            lemma_find_index_is(slots, name@, k);
                        }
                        return Some((rd, e));
                    }
                    proof {
                        assert(rd.remaining(dev@) =~= slots.skip(k + 1));
                        passed = k + 1;
                    }
                },
            }
        }
    }

    /// The first live entry named `name`, if there is one.
    pub fn find(&self, dev: &BlockDevice, name: &str) -> (r: Option<DirEntry>)
        ensures
            ({
                let slots = dir_slots(dev@, self.addr);
                let k = find_index(slots, name.spec_bytes());
                match r {
                    Some(e) => k < slots.len() && e.is_slot(*self, slots[k]),
                    None => k == slots.len(),
                }
            }),
    {
        match self.locate(dev, name.as_bytes()) {
            Some((_, e)) => Some(e),
            None => None,
        }
    }
}


/// Writes a record into the payload of `block` at `off`.
fn write_entry(block: &mut Block, off: usize, kind: FileType, addr: u32, size: u32, name: &[u8])
    requires
        off + 10 + name@.len() <= 508,
        name@.len() <= 255,
    ensures
        final(block).addr == old(block).addr,
        final(block).buf@ == splice(
            old(block).buf@,
            4 + off,
            entry_image(kind, addr, size, name@),
        ),
{
    let at = 4 + off;
    let a = be_bytes(addr);
    let s = be_bytes(size);
    let n = name.len();
    block.buf[at] = match kind {
        FileType::Dir => 0,
        FileType::File => 1,
    };
    block.buf[at + 1] = a[0];
    block.buf[at + 2] = a[1];
    block.buf[at + 3] = a[2];
    block.buf[at + 4] = a[3];
    block.buf[at + 5] = s[0];
    block.buf[at + 6] = s[1];
    block.buf[at + 7] = s[2];
    block.buf[at + 8] = s[3];
    block.buf[at + 9] = n as u8;
    let ghost head = block.buf@;
    let mut j: usize = 0;
    while j < n
        invariant
            j <= n,
            n == name@.len(),
            at + 10 + n <= 512,
            block.addr == old(block).addr,
            forall|x: int|
                0 <= x < 512 ==> block.buf@[x] == (if at + 10 <= x < at + 10 + j {
                    name@[x - at - 10]
                } else {
                    head[x]
                }),
        decreases n - j,
    {
        block.buf[at + 10 + j] = name[j];
        j += 1;
    }
    assert(block.buf@ =~= splice(old(block).buf@, 4 + off, entry_image(kind, addr, size, name@)));
}

impl Dir {
    /// The tail block of the directory and the offset in its payload at
    /// which the scan of it stops.
    fn tail(&self, dev: &BlockDevice) -> (r: (Block, usize))
        ensures
            r.0.addr == dir_tail(dev@, self.addr),
            r.0.buf@ == sector_of(dev@, r.0.addr),
            r.1 == dir_tail_offset(dev@, self.addr),
            r.1 <= 508,
    {
        let mut block = Block::read(dev, self.addr);
        let mut hops = MAX_HOPS;
        let mut next = block.next_addr();
        while next != 0 && hops != 0
            invariant
                block.buf@ == sector_of(dev@, block.addr),
                next == next_of(block.buf@),
                tail_of(dev@, self.addr, MAX_HOPS as nat) == tail_of(dev@, block.addr, hops as nat),
            decreases hops,
        {
            block = Block::read(dev, next);
            hops = hops - 1;
            next = block.next_addr();
        }
        let data = block.data();
        let mut i: usize = 0;
        while i < 498 && (data[i] == 0 || data[i] == 1) && data[i + 9] != 0 && i + 10
            + data[i + 9] as usize <= 508
            invariant
                i <= 508,
                data@ == payload(block.buf@),
                scan_end(data@, 0) == scan_end(data@, i as int),
            decreases 508 - i,
        {
            i = i + 10 + data[i + 9] as usize;
        }
        (block, i)
    }

    /// Adds a file named `name`.
    pub fn create_file(&self, dev: &mut BlockDevice, name: &str) -> (r: Option<DirEntry>)
        ensures
            final(dev).spec_bus() == old(dev).spec_bus(),
            final(dev).spec_dsk() == old(dev).spec_dsk(),
            old(dev).wf() ==> final(dev).wf(),
            r is Some <==> can_create(old(dev)@, self.addr, name.spec_bytes()),
            r is None ==> final(dev)@ == old(dev)@,
            r matches Some(e) ==> {
                &&& final(dev)@ == created(
                    old(dev)@,
                    self.addr,
                    FileType::File,
                    name.spec_bytes(),
                )
                &&& e.dir == *self
                &&& e.kind == FileType::File
                &&& e.addr == created_addr(old(dev)@, self.addr, name.spec_bytes())
                &&& e.size == 0
                &&& e.name@ == name.spec_bytes()
            },
    {
        self.create_entry(dev, FileType::File, name)
    }

    /// Adds a directory named `name`.
    pub fn create_dir(&self, dev: &mut BlockDevice, name: &str) -> (r: Option<DirEntry>)
        ensures
            final(dev).spec_bus() == old(dev).spec_bus(),
            final(dev).spec_dsk() == old(dev).spec_dsk(),
            old(dev).wf() ==> final(dev).wf(),
            r is Some <==> can_create(old(dev)@, self.addr, name.spec_bytes()),
            r is None ==> final(dev)@ == old(dev)@,
            r matches Some(e) ==> {
                &&& final(dev)@ == created(old(dev)@, self.addr, FileType::Dir, name.spec_bytes())
                &&& e.dir == *self
                &&& e.kind == FileType::Dir
                &&& e.addr == created_addr(old(dev)@, self.addr, name.spec_bytes())
                &&& e.size == 0
                &&& e.name@ == name.spec_bytes()
            },
    {
        self.create_entry(dev, FileType::Dir, name)
    }

    /// Adds an entry of `kind` named `name`, with a fresh block of zeros as
    /// its content and size 0. The record goes to the end of the tail
    /// block; where it does not fit there, a fresh block becomes the new
    /// tail and takes it. `None`, and nothing written, where the name is
    /// taken, is empty or longer than 255 bytes, where the directory's chain
    /// does not end, or where the free blocks do not suffice.
    pub fn create_entry(&self, dev: &mut BlockDevice, kind: FileType, name: &str) -> (r: Option<
        DirEntry,
    >)
        ensures
            final(dev).spec_bus() == old(dev).spec_bus(),
            final(dev).spec_dsk() == old(dev).spec_dsk(),
            old(dev).wf() ==> final(dev).wf(),
            r is Some <==> can_create(old(dev)@, self.addr, name.spec_bytes()),
            r is None ==> final(dev)@ == old(dev)@,
            r matches Some(e) ==> {
                &&& final(dev)@ == created(old(dev)@, self.addr, kind, name.spec_bytes())
                &&& e.dir == *self
                &&& e.kind == kind
                &&& e.addr == created_addr(old(dev)@, self.addr, name.spec_bytes())
                &&& e.size == 0
                &&& e.name@ == name.spec_bytes()
            },
    {
        let bytes = name.as_bytes();
        let n = bytes.len();
        if n == 0 || n > 255 {
            return None;
        }
        if self.locate(dev, bytes).is_some() {
            return None;
        }
        let (mut tail, off) = self.tail(dev);
        if tail.next_addr() != 0 {
            return None;
        }
        let a1 = match BlockBitmap::next_free_addr(dev) {
            Some(a) => a,
            None => {
                return None;
            },
        };
        let entry_addr: u32;
        if 508 - off < n + 10 {
            let a2 = match BlockBitmap::next_free_from(dev, a1 - DATA_ADDR_OFFSET + 1) {
                Some(a) => a,
                None => {
                    return None;
                },
            };
            let mut fresh = Block::allocate_at(dev, a1);
            tail.set_next(a1);
            tail.write(dev);
            let _ = Block::allocate_at(dev, a2);
            write_entry(&mut fresh, 0, kind, a2, 0, bytes);
            fresh.write(dev);
            entry_addr = a2;
        } else {
            let _ = Block::allocate_at(dev, a1);
            write_entry(&mut tail, off, kind, a1, 0, bytes);
            tail.write(dev);
            entry_addr = a1;
        }
        Some(
            DirEntry {
                dir: *self,
                kind,
                addr: entry_addr,
                size: 0,
                name: vstd::slice::slice_to_vec(bytes),
            },
        )
    }

    /// Makes the first live entry named `name` dead, by writing 0 over its
    /// address, and marks the blocks of its chain free. `Err`, and nothing
    /// written, where there is no such entry.
    pub fn delete_entry(&mut self, dev: &mut BlockDevice, name: &str) -> (r: Result<(), ()>)
        ensures
            *final(self) == *old(self),
            final(dev).spec_bus() == old(dev).spec_bus(),
            final(dev).spec_dsk() == old(dev).spec_dsk(),
            old(dev).wf() ==> final(dev).wf(),
            r is Ok <==> find_index(dir_slots(old(dev)@, old(self).addr), name.spec_bytes())
                < dir_slots(old(dev)@, old(self).addr).len(),
            final(dev)@ == deleted(old(dev)@, old(self).addr, name.spec_bytes()),
    {
        match self.locate(dev, name.as_bytes()) {
            None => Err(()),
            Some((rd, entry)) => {
                let mut block = rd.block;
                let at = 4 + (rd.data_offset - entry.len());
                block.buf[at + 1] = 0;
                block.buf[at + 2] = 0;
                block.buf[at + 3] = 0;
                block.buf[at + 4] = 0;
                assert(block.buf@ =~= put_be32(rd.block.buf@, at + 1, 0));
                block.write(dev);
                let ghost dead = dev@;
                let mut blk = Block::read(dev, entry.addr);
                let mut hops = MAX_HOPS;
                loop
                    invariant_except_break
                        blk.buf@ == sector_of(dev@, blk.addr),
                        free_chain(dead, entry.addr, MAX_HOPS as nat) == free_chain(
                            dev@,
                            blk.addr,
                            hops as nat,
                        ),
                    invariant
                        dev.spec_bus() == old(dev).spec_bus(),
                        dev.spec_dsk() == old(dev).spec_dsk(),
                        old(dev).wf() ==> dev.wf(),
                    ensures
                        dev@ == free_chain(dead, entry.addr, MAX_HOPS as nat),
                    decreases hops,
                {
                    let next = blk.next_addr();
                    BlockBitmap::free(dev, blk.addr);
                    if next == 0 || hops == 0 {
                        break ;
                    }
                    blk = Block::read(dev, next);
                    hops = hops - 1;
                }
                Ok(())
            },
        }
    }

    /// Writes `size` into the size field of the first live entry named
    /// `name`. Nothing is written where there is no such entry.
    pub fn update_entry_size(&mut self, dev: &mut BlockDevice, name: &[u8], size: u32)
        ensures
            *final(self) == *old(self),
            final(dev).spec_bus() == old(dev).spec_bus(),
            final(dev).spec_dsk() == old(dev).spec_dsk(),
            old(dev).wf() ==> final(dev).wf(),
            final(dev)@ == resized(old(dev)@, old(self).addr, name@, size),
    {
        match self.locate(dev, name) {
            None => {},
            Some((rd, entry)) => {
                let mut block = rd.block;
                let at = 4 + (rd.data_offset - entry.len());
                let s = be_bytes(size);
                block.buf[at + 5] = s[0];
                block.buf[at + 6] = s[1];
                block.buf[at + 7] = s[2];
                block.buf[at + 8] = s[3];
                assert(block.buf@ =~= put_be32(rd.block.buf@, at + 5, size));
                block.write(dev);
            },
        }
    }
}

impl DirEntry {
    /// Bytes that the entry's record takes in a directory block.
    pub fn len(&self) -> (r: usize)
        requires
            self.name@.len() <= usize::MAX - 10,
        ensures
            r == 10 + self.name@.len(),
    {
        1 + 4 + 4 + 1 + self.name.len()
    }

    /// Whether the entry names a directory.
    pub fn is_dir(&self) -> (r: bool)
        ensures
            r == (self.kind == FileType::Dir),
    {
        self.kind == FileType::Dir
    }

    /// Whether the entry names a file.
    pub fn is_file(&self) -> (r: bool)
        ensures
            r == (self.kind == FileType::File),
    {
        self.kind == FileType::File
    }

    /// The size that the record holds.
    pub fn size(&self) -> (r: u32)
        ensures
            r == self.size,
    {
        self.size
    }

    /// The directory that the entry names.
    pub fn to_dir(&self) -> (r: Dir)
        requires
            self.kind == FileType::Dir,
        ensures
            r.addr == self.addr,
    {
        Dir { addr: self.addr }
    }
}


/// The index of the first `/` in `p`; the length where there is none.
pub open spec fn first_slash(p: Seq<u8>) -> int
    decreases p.len(),
{
    if p.len() == 0 || p[0] == SLASH {
        0
    } else {
        1 + first_slash(p.skip(1))
    }
}

/// `p` without the `/`s at its start.
pub open spec fn trim_slashes(p: Seq<u8>) -> Seq<u8>
    decreases p.len(),
{
    if p.len() > 0 && p[0] == SLASH {
        trim_slashes(p.skip(1))
    } else {
        p
    }
}

/// The directory that the names of `p`, parted by `/`, lead to from the
/// directory at `dir`: each name must be that of a live entry which is a
/// directory. A name may be empty, and then leads nowhere.
pub open spec fn walk(disk: Seq<Seq<u8>>, dir: u32, p: Seq<u8>) -> Option<u32>
    decreases p.len(),
{
    let k = first_slash(p);
    let slots = dir_slots(disk, dir);
    let f = find_index(slots, p.take(k));
    if 0 <= f < slots.len() && slots[f].kind == FileType::Dir {
        if 0 <= k < p.len() {
            walk(disk, slots[f].addr, p.skip(k + 1))
        } else {
            Some(slots[f].addr)
        }
    } else {
        None
    }
}

/// The directory that the absolute path `path` names: the root for `/`,
/// else what the names after the leading `/`s lead to from the root.
pub open spec fn open_dir(disk: Seq<Seq<u8>>, path: Seq<u8>) -> Option<u32> {
    if path == seq![SLASH] {
        Some(DATA_ADDR_OFFSET)
    } else {
        walk(disk, DATA_ADDR_OFFSET, trim_slashes(path))
    }
}

/// The bytes of the absolute form of `pathname` in the filesystem `fs`.
pub open spec fn abs_path(fs: FileSystem, pathname: &str) -> Seq<u8> {
    vstd::utf8::encode_utf8(real_path(pathname@, fs.dir@))
}

/// The directory in which `pathname` names an entry: the one that the
/// directory part of its absolute form names.
pub open spec fn parent_of(fs: FileSystem, pathname: &str) -> Option<u32> {
    match fs.device {
        Some(dev) => open_dir(dev@, dirname_of(abs_path(fs, pathname))),
        None => None,
    }
}

/// The name of the entry that `pathname` names in its directory.
pub open spec fn leaf_of(fs: FileSystem, pathname: &str) -> Seq<u8> {
    filename_of(abs_path(fs, pathname))
}

/// `first_slash` lies within the name.
pub proof fn lemma_first_slash(p: Seq<u8>)
    ensures
        0 <= first_slash(p) <= p.len(),
        first_slash(p) < p.len() ==> p[first_slash(p)] == SLASH,
        forall|j: int| 0 <= j < first_slash(p) ==> p[j] != SLASH,
    decreases p.len(),
{
    if !(p.len() == 0 || p[0] == SLASH) {
        lemma_first_slash(p.skip(1));
        assert forall|j: int| 0 <= j < first_slash(p) implies p[j] != SLASH by {
            if j > 0 {
                assert(p[j] == p.skip(1)[j - 1]);
            }
        }
    }
}

/// The first `/` is where no earlier byte is one.
pub proof fn lemma_first_slash_is(p: Seq<u8>, k: int)
    requires
        0 <= k <= p.len(),
        forall|j: int| 0 <= j < k ==> p[j] != SLASH,
        k < p.len() ==> p[k] == SLASH,
    ensures
        first_slash(p) == k,
{
    lemma_first_slash(p);
}

impl Dir {
    /// The directory that the absolute path `path` names on the device.
    pub fn open_abs(dev: &BlockDevice, path: &[u8]) -> (r: Option<Dir>)
        ensures
            match open_dir(dev@, path@) {
                Some(a) => r == Some(Dir { addr: a }),
                None => r is None,
            },
    {
        let n = path.len();
        if n == 1 && path[0] == SLASH {
            assert(path@ =~= seq![SLASH]);
            return Some(Dir::root());
        }
        let mut start: usize = 0;
        assert(path@.skip(0) =~= path@);
        while start < n && path[start] == SLASH
            invariant
                start <= n == path@.len(),
                trim_slashes(path@) == trim_slashes(path@.skip(start as int)),
            decreases n - start,
        {
            assert(path@.skip(start as int).skip(1) =~= path@.skip(start + 1));
            start += 1;
        }
        let mut dir = Dir::root();
        loop
            invariant
                start <= n == path@.len(),
                path@ != seq![SLASH],
                open_dir(dev@, path@) == walk(dev@, dir.addr, path@.skip(start as int)),
            decreases n - start,
        {
            let ghost rest = path@.skip(start as int);
            let mut end = start;
            while end < n && path[end] != SLASH
                invariant
                    start <= end <= n == path@.len(),
                    forall|j: int| start <= j < end ==> path@[j] != SLASH,
                decreases n - end,
            {
                end += 1;
            }
            proof {
                lemma_first_slash_is(rest, end - start);
                assert(rest.take(end - start) =~= path@.subrange(start as int, end as int));
                if end < n {
                    assert(rest.skip(end - start + 1) =~= path@.skip(end + 1));
                }
                lemma_find_index(dir_slots(dev@, dir.addr), rest.take(end - start));
            }
            let name = vstd::slice::slice_subrange(path, start, end);
            match dir.locate(dev, name) {
                Some((_, e)) => {
                    if e.kind == FileType::Dir {
                        dir = Dir { addr: e.addr };
                    } else {
                        return None;
                    }
                },
                None => {
                    return None;
                },
            }
            if end >= n {
                return Some(dir);
            }
            start = end + 1;
        }
    }

    /// The directory that `pathname` names; `None` where no device is
    /// mounted, or a name on the way is missing or no directory.
    pub fn open(fs: &FileSystem, pathname: &str) -> (r: Option<Dir>)
        ensures
            match fs.device {
                Some(dev) => match open_dir(dev@, abs_path(*fs, pathname)) {
                    Some(a) => r == Some(Dir { addr: a }),
                    None => r is None,
                },
                None => r is None,
            },
    {
        let abs = realpath(pathname, fs.dir.as_str());
        match &fs.device {
            Some(dev) => Dir::open_abs(dev, abs.as_str().as_bytes()),
            None => None,
        }
    }

    /// Makes the directory that `pathname` names, in the directory that
    /// the part before its last `/` names. `None`, and nothing written,
    /// where that directory cannot be opened or the entry cannot be added.
    pub fn create(fs: &mut FileSystem, pathname: &str) -> (r: Option<Dir>)
        ensures
            final(fs).follows(old(fs)),
            r is Some <==> parent_of(*old(fs), pathname) is Some && can_create(
                old(fs).disk(),
                parent_of(*old(fs), pathname)->0,
                leaf_of(*old(fs), pathname),
            ),
            r is None ==> final(fs).disk() == old(fs).disk(),
            r matches Some(d) ==> {
                &&& d.addr == created_addr(
                    old(fs).disk(),
                    parent_of(*old(fs), pathname)->0,
                    leaf_of(*old(fs), pathname),
                )
                &&& final(fs).disk() == created(
                    old(fs).disk(),
                    parent_of(*old(fs), pathname)->0,
                    FileType::Dir,
                    leaf_of(*old(fs), pathname),
                )
            },
    {
        let abs = realpath(pathname, fs.dir.as_str());
        let parent = dirname(abs.as_str());
        let leaf = filename(abs.as_str());
        match &mut fs.device {
            Some(dev) => match Dir::open_abs(dev, parent.as_bytes()) {
                Some(dir) => match dir.create_dir(dev, leaf) {
                    Some(entry) => Some(entry.to_dir()),
                    None => None,
                },
                None => None,
            },
            None => None,
        }
    }

    /// Deletes the entry that `pathname` names, file or directory: see
    /// `delete_entry`. `Err` where its directory cannot be opened or holds
    /// no such entry.
    pub fn delete(fs: &mut FileSystem, pathname: &str) -> (r: Result<(), ()>)
        ensures
            final(fs).follows(old(fs)),
            r is Ok <==> parent_of(*old(fs), pathname) is Some && find_index(
                dir_slots(old(fs).disk(), parent_of(*old(fs), pathname)->0),
                leaf_of(*old(fs), pathname),
            ) < dir_slots(old(fs).disk(), parent_of(*old(fs), pathname)->0).len(),
            r is Err ==> final(fs).disk() == old(fs).disk(),
            r is Ok ==> final(fs).disk() == deleted(
                old(fs).disk(),
                parent_of(*old(fs), pathname)->0,
                leaf_of(*old(fs), pathname),
            ),
    {
        let abs = realpath(pathname, fs.dir.as_str());
        let parent = dirname(abs.as_str());
        let leaf = filename(abs.as_str());
        match &mut fs.device {
            Some(dev) => match Dir::open_abs(dev, parent.as_bytes()) {
                Some(dir) => {
                    let mut dir = dir;
                    dir.delete_entry(dev, leaf)
                },
                None => Err(()),
            },
            None => Err(()),
        }
    }
}

} // verus!
