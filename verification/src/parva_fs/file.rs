//! Files: the bytes of a chain of blocks, as many as the directory entry's
//! size field says.

use crate::parva_fs::bitmap::{alloc_block, first_free};
use crate::parva_fs::block::{next_of, payload, Block};
use crate::parva_fs::block_device::BlockDevice;
use crate::parva_fs::dir::{
    can_create, created, created_addr, deleted, dir_slots, find_index, leaf_of, parent_of,
    resized, Dir, DirEntry, FileType,
};
use crate::parva_fs::layout::{be_byte, disk_put, sector_of};
use crate::parva_fs::mount::FileSystem;
use crate::parva_fs::path::{dirname, filename, realpath};
use crate::text::{chars_of, string_of};
use vstd::prelude::*;
use vstd::string::StringSliceAdditionalSpecFns;

verus! {

/// An open file: its name in its directory, the first block of its chain,
/// its size in bytes, and the directory that holds its entry.
#[derive(Clone, Debug)]
pub struct File {
    pub name: Vec<u8>,
    pub addr: u32,
    pub size: u32,
    pub dir: Dir,
}

/// The first `limit` bytes of the payloads along the chain from `addr`;
/// fewer where the chain ends before that.
pub open spec fn file_bytes(disk: Seq<Seq<u8>>, addr: u32, limit: nat) -> Seq<u8>
    decreases limit,
{
    let s = sector_of(disk, addr);
    if limit == 0 {
        Seq::empty()
    } else if limit <= 508 {
        payload(s).take(limit as int)
    } else if next_of(s) == 0 {
        payload(s)
    } else {
        payload(s) + file_bytes(disk, next_of(s), (limit - 508) as nat)
    }
}

/// A block whose successor is `next` and whose payload is `chunk`, then
/// zeros.
pub open spec fn block_image(next: u32, chunk: Seq<u8>) -> Seq<u8> {
    Seq::new(
        512,
        |j: int|
            if j < 4 {
                be_byte(next, j)
            } else if j - 4 < chunk.len() {
                chunk[j - 4]
            } else {
                0u8
            },
    )
}

/// The disk after `data` is written along the chain from `addr`, and
/// whether all of it was written. Each block takes 508 bytes; a block's
/// successor is kept while data remains, and where there is none a free
/// block is taken; the block that takes the last byte ends the chain. The
/// write stops, with the blocks before written, where no block is free.
pub open spec fn write_chain(disk: Seq<Seq<u8>>, addr: u32, data: Seq<u8>) -> (Seq<Seq<u8>>, bool)
    decreases data.len(),
{
    let old_next = next_of(sector_of(disk, addr));
    if data.len() == 0 {
        (disk, true)
    } else if data.len() <= 508 {
        (disk_put(disk, addr, block_image(0, data)), true)
    } else if old_next != 0 {
        write_chain(
            disk_put(disk, addr, block_image(old_next, data.take(508))),
            old_next,
            data.skip(508),
        )
    } else {
        match first_free(disk) {
            None => (disk, false),
            Some(a) => write_chain(
                disk_put(alloc_block(disk, a), addr, block_image(a, data.take(508))),
                a,
                data.skip(508),
            ),
        }
    }
}

/// Calls `String::from_utf8`. std documents that it gives the string whose
/// UTF-8 form the bytes are, and an error exactly when they are not valid
/// UTF-8.
#[verifier::external_body]
fn string_from_utf8(bytes: Vec<u8>) -> (r: Option<String>)
    ensures
        r is Some <==> vstd::utf8::valid_utf8(bytes@),
        r matches Some(s) ==> s@ == vstd::utf8::decode_utf8(bytes@),
{
    match String::from_utf8(bytes) {
        Ok(s) => Some(s),
        Err(_) => None,
    }
}

impl File {
    /// The size in bytes.
    pub fn size(&self) -> (r: usize)
        ensures
            r == self.size,
    {
        self.size as usize
    }

    /// The address of the first block.
    pub fn addr(&self) -> (r: u32)
        ensures
            r == self.addr,
    {
        self.addr
    }

    /// Copies the file's bytes into `buf`, as many as fit, and returns how
    /// many. Where the chain ends before the size is reached, what there is.
    pub fn read(&self, dev: &BlockDevice, buf: &mut [u8]) -> (r: usize)
        ensures
            ({
                let limit = if old(buf)@.len() < self.size {
                    old(buf)@.len()
                } else {
                    self.size as nat
                };
                let content = file_bytes(dev@, self.addr, limit);
                &&& r == content.len()
                &&& r <= limit
                &&& final(buf)@ == content + old(buf)@.skip(r as int)
            }),
    {
        let buf_len = buf.len();
        let limit = if buf_len < self.size() {
            buf_len
        } else {
            self.size()
        };
        let ghost content = file_bytes(dev@, self.addr, limit as nat);
        let mut addr = self.addr;
        let mut i: usize = 0;
        assert(buf@.take(0) + content =~= content);
        loop
            invariant
                i <= limit <= buf_len,
                buf@.len() == buf_len,
                old(buf)@.len() == buf_len,
                limit == self.size || (limit == buf_len && buf_len < self.size),
                content == file_bytes(dev@, self.addr, limit as nat),
                buf@.skip(i as int) == old(buf)@.skip(i as int),
                content == buf@.take(i as int) + file_bytes(dev@, addr, (limit - i) as nat),
            decreases limit - i,
        {
            let block = Block::read(dev, addr);
            let data = block.data();
            let c = if limit - i < 508 {
                limit - i
            } else {
                508
            };
            let ghost start = buf@;
            let ghost i0 = i;
            let mut j: usize = 0;
            while j < c
                invariant
                    j <= c <= 508,
                    i == i0 + j,
                    i0 + c <= limit <= buf_len,
                    buf@.len() == buf_len,
                    start.len() == buf_len,
                    data@ == payload(block.buf@),
                    forall|x: int|
                        0 <= x < buf_len ==> buf@[x] == (if i0 <= x < i0 + j {
                            data@[x - i0]
                        } else {
                            start[x]
                        }),
                decreases c - j,
            {
                buf[i] = data[j];
                i += 1;
                j += 1;
            }
            proof {
                assert(buf@.take(i as int) =~= start.take(i0 as int) + data@.take(c as int));
                assert(buf@.skip(i as int) =~= old(buf)@.skip(i as int)) by {
                    assert forall|x: int| 0 <= x < buf_len - i implies buf@.skip(i as int)[x]
                        == old(buf)@.skip(i as int)[x] by {
                        assert(start.skip(i0 as int)[x + c] == old(buf)@.skip(i0 as int)[x + c]);
                    }
                }
            }
            assert(data@.len() == 508);
            assert(content == start.take(i0 as int) + file_bytes(dev@, addr, (limit - i0) as nat));
            if i == limit {
                proof {
                    assert(content =~= buf@.take(i as int));
                    assert(buf@ =~= content + old(buf)@.skip(i as int));
                }
                return i;
            }
            let next = block.next_addr();
            if next == 0 {
                proof {
                    assert(data@.take(c as int) =~= data@);
                    assert(content =~= buf@.take(i as int));
                    assert(buf@ =~= content + old(buf)@.skip(i as int));
                }
                return i;
            }
            proof {
                assert(data@.take(c as int) =~= data@);
                assert(content =~= buf@.take(i as int) + file_bytes(
                    dev@,
                    next,
                    (limit - i) as nat,
                ));
            }
            addr = next;
        }
    }

    /// The file's bytes as a string; `None` where they are not UTF-8.
    pub fn read_to_string(&self, dev: &BlockDevice) -> (r: Option<String>)
        ensures
            ({
                let content = file_bytes(dev@, self.addr, self.size as nat);
                &&& r is Some <==> vstd::utf8::valid_utf8(content)
                &&& r matches Some(s) ==> s@ == vstd::utf8::decode_utf8(content)
            }),
    {
        let mut buf: Vec<u8> = Vec::new();
        let mut k: usize = 0;
        while k < self.size()
            invariant
                k <= self.size,
                buf@.len() == k,
            decreases self.size - k,
        {
            buf.push(0);
            k += 1;
        }
        let bytes = self.read(dev, buf.as_mut_slice());
        buf.truncate(bytes);
        assert(buf@ =~= file_bytes(dev@, self.addr, self.size as nat));
        string_from_utf8(buf)
    }

    /// Replaces the file's content by `buf` and writes the new size into
    /// the file's directory entry. `Err` where `buf` is longer than a size
    /// field can say, with nothing written, and where the free blocks run
    /// out, with the blocks before that written and the size as it was.
    pub fn write(&mut self, dev: &mut BlockDevice, buf: &[u8]) -> (r: Result<(), ()>)
        ensures
            final(dev).spec_bus() == old(dev).spec_bus(),
            final(dev).spec_dsk() == old(dev).spec_dsk(),
            old(dev).wf() ==> final(dev).wf(),
            final(self).name == old(self).name,
            final(self).addr == old(self).addr,
            final(self).dir == old(self).dir,
            ({
                let w = write_chain(old(dev)@, old(self).addr, buf@);
                &&& r is Ok <==> w.1 && buf@.len() <= u32::MAX
                &&& buf@.len() > u32::MAX ==> final(dev)@ == old(dev)@
                &&& buf@.len() <= u32::MAX && !w.1 ==> final(dev)@ == w.0
                &&& r is Err ==> final(self).size == old(self).size
                &&& r is Ok ==> final(self).size == buf@.len() && final(dev)@ == resized(
                    w.0,
                    old(self).dir.addr,
                    old(self).name@,
                    buf@.len() as u32,
                )
            }),
    {
        let buf_len = buf.len();
        if buf_len > u32::MAX as usize {
            return Err(());
        }
        let mut addr = self.addr;
        let mut i: usize = 0;
        assert(buf@.skip(0) =~= buf@);
        while i < buf_len
            invariant
                i <= buf_len == buf@.len(),
                buf_len <= u32::MAX,
                dev.spec_bus() == old(dev).spec_bus(),
                dev.spec_dsk() == old(dev).spec_dsk(),
                old(dev).wf() ==> dev.wf(),
                *self == *old(self),
                write_chain(old(dev)@, old(self).addr, buf@) == write_chain(
                    dev@,
                    addr,
                    buf@.skip(i as int),
                ),
            decreases buf_len - i,
        {
            let ghost rest = buf@.skip(i as int);
            let ghost before = dev@;
            assert(rest.len() == buf_len - i);
            let old_next = Block::read(dev, addr).next_addr();
            let mut block = Block::new(addr);
            let c = if buf_len - i < 508 {
                buf_len - i
            } else {
                508
            };
            let ghost i0 = i;
            let mut j: usize = 0;
            while j < c
                invariant
                    j <= c <= 508,
                    i == i0 + j,
                    i0 + c <= buf_len == buf@.len(),
                    block.addr == addr,
                    forall|x: int|
                        0 <= x < 512 ==> block.buf@[x] == (if 4 <= x < 4 + j {
                            buf@[i0 + x - 4]
                        } else {
                            0u8
                        }),
                decreases c - j,
            {
                block.buf[4 + j] = buf[i];
                i += 1;
                j += 1;
            }
            let next = if i < buf_len {
                if old_next != 0 {
                    old_next
                } else {
                    match Block::allocate(dev) {
                        Some(fresh) => fresh.addr,
                        None => {
                            return Err(());
                        },
                    }
                }
            } else {
                0
            };
            block.set_next(next);
            proof {
                assert(block.buf@ =~= block_image(next, rest.take(c as int)));
                if i < buf_len {
                    assert(rest.skip(508) =~= buf@.skip(i as int));
                } else {
                    assert(rest.take(c as int) =~= rest);
                    assert(buf@.skip(i as int).len() == 0);
                }
            }
            block.write(dev);
            addr = next;
        }
        self.size = i as u32;
        let mut dir = self.dir;
        dir.update_entry_size(dev, self.name.as_slice(), self.size);
        Ok(())
    }
}

impl DirEntry {
    /// An entry with these fields; the name is kept as its bytes.
    pub fn new(dir: Dir, kind: FileType, addr: u32, size: u32, name: &str) -> (r: Self)
        ensures
            r.dir == dir,
            r.kind == kind,
            r.addr == addr,
            r.size == size,
            r.name@ == name.spec_bytes(),
    {
        DirEntry { dir, kind, addr, size, name: vstd::slice::slice_to_vec(name.as_bytes()) }
    }

    /// The file that the entry names.
    pub fn to_file(&self) -> (r: File)
        requires
            self.kind == FileType::File,
        ensures
            r.name@ == self.name@,
            r.addr == self.addr,
            r.size == self.size,
            r.dir == self.dir,
    {
        File {
            name: vstd::slice::slice_to_vec(self.name.as_slice()),
            addr: self.addr,
            size: self.size,
            dir: self.dir,
        }
    }
}


impl DirEntry {
    /// The name as a string: each byte of it as the character with that
    /// code.
    pub fn name(&self) -> (r: String)
        ensures
            r@ == chars_of(self.name@),
    {
        string_of(self.name.as_slice())
    }
}

impl File {
    /// Makes the file that `pathname` names, empty, in the directory that
    /// the part before its last `/` names. `None`, and nothing written,
    /// where that directory cannot be opened or the entry cannot be added.
    pub fn create(fs: &mut FileSystem, pathname: &str) -> (r: Option<File>)
        ensures
            final(fs).follows(old(fs)),
            r is Some <==> parent_of(*old(fs), pathname) is Some && can_create(
                old(fs).disk(),
                parent_of(*old(fs), pathname)->0,
                leaf_of(*old(fs), pathname),
            ),
            r is None ==> final(fs).disk() == old(fs).disk(),
            r matches Some(f) ==> {
                &&& f.name@ == leaf_of(*old(fs), pathname)
                &&& f.size == 0
                &&& f.dir.addr == parent_of(*old(fs), pathname)->0
                &&& f.addr == created_addr(
                    old(fs).disk(),
                    parent_of(*old(fs), pathname)->0,
                    leaf_of(*old(fs), pathname),
                )
                &&& final(fs).disk() == created(
                    old(fs).disk(),
                    parent_of(*old(fs), pathname)->0,
                    FileType::File,
                    leaf_of(*old(fs), pathname),
                )
            },
    {
        let abs = realpath(pathname, fs.dir.as_str());
        let parent = dirname(abs.as_str());
        let leaf = filename(abs.as_str());
        match &mut fs.device {
            Some(dev) => match Dir::open_abs(dev, parent.as_bytes()) {
                Some(dir) => match dir.create_file(dev, leaf) {
                    Some(entry) => Some(entry.to_file()),
                    None => None,
                },
                None => None,
            },
            None => None,
        }
    }

    /// The file that `pathname` names: the first live entry of that name
    /// in its directory, where it is a file.
    pub fn open(fs: &FileSystem, pathname: &str) -> (r: Option<File>)
        ensures
            match parent_of(*fs, pathname) {
                None => r is None,
                Some(d) => {
                    let slots = dir_slots(fs.disk(), d);
                    let k = find_index(slots, leaf_of(*fs, pathname));
                    &&& r is Some <==> k < slots.len() && slots[k].kind == FileType::File
                    &&& r matches Some(f) ==> {
                        &&& f.name@ == leaf_of(*fs, pathname)
                        &&& f.addr == slots[k].addr
                        &&& f.size == slots[k].size
                        &&& f.dir.addr == d
                    }
                },
            },
    {
        let abs = realpath(pathname, fs.dir.as_str());
        let parent = dirname(abs.as_str());
        let leaf = filename(abs.as_str());
        match &fs.device {
            Some(dev) => match Dir::open_abs(dev, parent.as_bytes()) {
                Some(dir) => match dir.find(dev, leaf) {
                    Some(entry) => {
                        if entry.is_file() {
                            proof {
                                crate::parva_fs::dir::lemma_find_index(
                                    dir_slots(dev@, dir.addr),
                                    leaf.spec_bytes(),
                                );
                            }
                            Some(entry.to_file())
                        } else {
                            None
                        }
                    },
                    None => None,
                },
                None => None,
            },
            None => None,
        }
    }

    /// Deletes the entry that `pathname` names: see `Dir::delete_entry`.
    /// `Err` where its directory cannot be opened or holds no such entry.
    pub fn delete(fs: &mut FileSystem, pathname: &str) -> (r: Result<(), ()>)
        ensures
            final(fs).follows(old(fs)),
            r is Ok <==> parent_of(*old(fs), pathname) is Some && find_index(
                dir_slots(old(fs).disk(), parent_of(*old(fs), pathname)->0),
                leaf_of(*old(fs), pathname),
            ) < dir_slots(old(fs).disk(), parent_of(*old(fs), pathname)->0).len(),
            r is Err ==> final(fs).disk() == old(fs).disk(),
            r is Ok ==> final(fs).disk() == deleted(
                old(fs).disk(),
                parent_of(*old(fs), pathname)->0,
                leaf_of(*old(fs), pathname),
            ),
    {
        Dir::delete(fs, pathname)
    }
}

} // verus!
