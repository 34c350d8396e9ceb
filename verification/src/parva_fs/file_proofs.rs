//! What holds of a file in good order when it is written and read back.

use crate::parva_fs::bitmap::{
    alloc_block, first_free, is_marked, lemma_first_free_from, lemma_first_free_same,
    lemma_mark, with_mark,
};
use crate::parva_fs::block::{next_of, payload};
use crate::parva_fs::chain::{
    all_marked, is_path, lemma_dir_slots, lemma_slots_along_same, linked, patched,
};
use crate::parva_fs::dir::{
    can_create, created, created_addr, deleted, dir_slots, find_index, first_slash, free_chain,
    lemma_find_index, lemma_find_index_is, open_dir, resized, trim_slashes, walk, FileType, Slot,
};
use crate::parva_fs::dir_proofs::{
    chain_after, dir_chain, dir_wf, field_put, lemma_created_slots, lemma_dir_kept,
    lemma_field_put,
    lemma_find_after_push, lemma_free_chain_frame, names_unique, new_slot, theorem_create_keeps_order, theorem_delete_then_find,
};
use crate::parva_fs::file::{block_image, file_bytes, write_chain};
use crate::parva_fs::layout::{
    be_byte, disk_put, disk_wf, is_bitmap_addr, is_data_addr, sector_of, zero_sector,
    DATA_ADDR_OFFSET, MAX_HOPS,
};
use crate::parva_fs::path::SLASH;
use vstd::prelude::*;

verus! {

/// `c` is a chain of any length on the disk: data blocks, each naming the
/// next as its successor and the last naming none, no block twice.
pub open spec fn is_list(disk: Seq<Seq<u8>>, c: Seq<u32>) -> bool {
    &&& 1 <= c.len()
    &&& forall|i: int| 0 <= i < c.len() ==> is_data_addr(#[trigger] c[i])
    &&& forall|i: int| 0 <= i < c.len() - 1 ==> #[trigger] linked(disk, c, i)
    &&& next_of(sector_of(disk, c.last())) == 0
    &&& forall|i: int, j: int| 0 <= i < j < c.len() ==> c[i] != c[j]
}

/// Whether a write along the chain `c` may write to the block `x`: a block
/// of the chain, or a data block that is free.
pub open spec fn in_reach(disk: Seq<Seq<u8>>, c: Seq<u32>, x: u32) -> bool {
    c.contains(x) || (is_data_addr(x) && !is_marked(disk, x))
}

/// The file named `name` in the directory at `dir`, with its first block at
/// `addr`, is in good order: the directory is, it holds a live record of a
/// file under that name with that address, the file's chain is a chain of
/// blocks marked used, and the two chains share no block.
pub open spec fn file_wf(disk: Seq<Seq<u8>>, dir: u32, name: Seq<u8>, addr: u32) -> bool {
    let slots = dir_slots(disk, dir);
    let k = find_index(slots, name);
    &&& dir_wf(disk, dir)
    &&& 0 <= k < slots.len()
    &&& slots[k].addr == addr
    &&& slots[k].kind == FileType::File
    &&& exists|fc: Seq<u32>, dc: Seq<u32>| file_chains(disk, dir, addr, fc, dc)
}

/// `fc` is the chain of the file at `addr` and `dc` that of the directory
/// at `dir`: both in good order, with no block in both.
pub open spec fn file_chains(
    disk: Seq<Seq<u8>>,
    dir: u32,
    addr: u32,
    fc: Seq<u32>,
    dc: Seq<u32>,
) -> bool {
    &&& is_list(disk, fc)
    &&& fc[0] == addr
    &&& all_marked(disk, fc)
    &&& dir_chain(disk, dir, dc)
    &&& forall|i: int, j: int| 0 <= i < fc.len() && 0 <= j < dc.len() ==> fc[i] != dc[j]
}

/// What is left of a chain without its first block is a chain.
pub proof fn lemma_list_rest(disk: Seq<Seq<u8>>, c: Seq<u32>)
    requires
        is_list(disk, c),
        c.len() >= 2,
    ensures
        is_list(disk, c.skip(1)),
        c.skip(1)[0] == next_of(sector_of(disk, c[0])),
        !c.skip(1).contains(c[0]),
{
    let r = c.skip(1);
    assert(linked(disk, c, 0));
    assert forall|i: int| 0 <= i < r.len() - 1 implies #[trigger] linked(disk, r, i) by {
        assert(linked(disk, c, i + 1));
    }
    assert(r.last() == c.last());
    if r.contains(c[0]) {
        let i = choose|i: int| 0 <= i < r.len() && r[i] == c[0];
        assert(c[i + 1] == r[i]);
    }
}

/// A block's image holds its link and its chunk.
pub proof fn lemma_block_image(next: u32, chunk: Seq<u8>)
    requires
        chunk.len() <= 508,
    ensures
        block_image(next, chunk).len() == 512,
        next_of(block_image(next, chunk)) == next,
        payload(block_image(next, chunk)).take(chunk.len() as int) == chunk,
{
    let s = block_image(next, chunk);
    assert(s[0] == be_byte(next, 0));
    assert(s[1] == be_byte(next, 1));
    assert(s[2] == be_byte(next, 2));
    assert(s[3] == be_byte(next, 3));
    assert(payload(s).take(chunk.len() as int) =~= chunk);
}

/// A write along a chain of blocks marked used leaves the disk in good
/// order, writes only to blocks of the chain, to free data blocks and to
/// the bitmap, and leaves every block that was marked used marked so,
/// whether it comes to its end or not.
pub proof fn lemma_write_frame(disk: Seq<Seq<u8>>, c: Seq<u32>, data: Seq<u8>)
    requires
        disk_wf(disk),
        is_list(disk, c),
        all_marked(disk, c),
    ensures
        disk_wf(write_chain(disk, c[0], data).0),
        forall|x: u32|
            !is_bitmap_addr(x) && !in_reach(disk, c, x) ==> #[trigger] sector_of(
                write_chain(disk, c[0], data).0,
                x,
            ) == sector_of(disk, x),
        forall|x: u32| is_marked(disk, x) ==> is_marked(write_chain(disk, c[0], data).0, x),
    decreases data.len(),
{
    let addr = c[0];
    let old_next = next_of(sector_of(disk, addr));
    assert(is_data_addr(c[0]));
    assert(is_marked(disk, c[0]));
    if data.len() == 0 {
    } else if data.len() <= 508 {
        lemma_block_image(0, data);
    } else if old_next != 0 {
        lemma_block_image(old_next, data.take(508));
        let d1 = disk_put(disk, addr, block_image(old_next, data.take(508)));
        if c.len() == 1 {
            assert(c.last() == c[0]);
        }
        lemma_list_rest(disk, c);
        let r = c.skip(1);
        assert(is_list(d1, r)) by {
            assert forall|i: int| 0 <= i < r.len() - 1 implies #[trigger] linked(d1, r, i) by {
                assert(linked(disk, r, i));
                assert(r.contains(r[i]));
            }
            assert(r.contains(r.last()));
        }
        assert(all_marked(d1, r)) by {
            assert forall|i: int| 0 <= i < r.len() implies is_marked(d1, #[trigger] r[i]) by {
                assert(r[i] == c[i + 1]);
                assert(is_marked(disk, c[i + 1]));
            }
        }
        lemma_write_frame(d1, r, data.skip(508));
        let w = write_chain(d1, r[0], data.skip(508)).0;
        assert(w == write_chain(disk, c[0], data).0);
        assert(c.contains(addr));
        assert forall|x: u32| !is_bitmap_addr(x) && !in_reach(disk, c, x) implies #[trigger] sector_of(
            w,
            x,
        ) == sector_of(disk, x) by {
            if r.contains(x) {
                let i = choose|i: int| 0 <= i < r.len() && r[i] == x;
                assert(c[i + 1] == x);
            }
            assert(is_marked(d1, x) == is_marked(disk, x));
            assert(!in_reach(d1, r, x));
            assert(sector_of(w, x) == sector_of(d1, x));
        }
        assert forall|x: u32| is_marked(disk, x) implies is_marked(w, x) by {
            assert(is_marked(d1, x) == is_marked(disk, x));
        }
    } else {
        match first_free(disk) {
            None => {},
            Some(a) => {
                lemma_first_free_from(disk, 0);
                lemma_mark(disk, a, true, a);
                let d0 = alloc_block(disk, a);
                lemma_block_image(a, data.take(508));
                let d1 = disk_put(d0, addr, block_image(a, data.take(508)));
                let r = seq![a];
                assert(sector_of(d1, a) == zero_sector());
                assert(is_list(d1, r));
                assert forall|x: u32| is_marked(disk, x) implies is_marked(d1, x) by {
                    lemma_mark(disk, a, true, x);
                }
                assert(all_marked(d1, r)) by {
                    lemma_mark(disk, a, true, a);
                }
                lemma_write_frame(d1, r, data.skip(508));
                let w = write_chain(d1, r[0], data.skip(508)).0;
                assert(w == write_chain(disk, c[0], data).0);
                assert(c.contains(addr));
                assert forall|x: u32|
                    !is_bitmap_addr(x) && !in_reach(disk, c, x) implies #[trigger] sector_of(w, x)
                    == sector_of(disk, x) by {
                    lemma_mark(disk, a, true, x);
                    assert(is_marked(d1, x) == is_marked(d0, x));
                    if r.contains(x) {
                        assert(x == a);
                    }
                    assert(!in_reach(d1, r, x));
                    assert(sector_of(w, x) == sector_of(d1, x));
                }
                assert forall|x: u32| is_marked(disk, x) implies is_marked(w, x) by {
                    assert(is_marked(d1, x));
                }
            },
        }
    }
}

/// After a write along a chain of blocks marked used has come to its end,
/// the bytes read along the chain are the bytes written; and so on every
/// disk that holds, in the blocks the write could reach, what the written
/// disk holds there.
pub proof fn lemma_write_reads_back(
    disk: Seq<Seq<u8>>,
    c: Seq<u32>,
    data: Seq<u8>,
    later: Seq<Seq<u8>>,
)
    requires
        disk_wf(disk),
        is_list(disk, c),
        all_marked(disk, c),
        write_chain(disk, c[0], data).1,
        forall|x: u32|
            in_reach(disk, c, x) ==> sector_of(later, x) == sector_of(
                write_chain(disk, c[0], data).0,
                x,
            ),
    ensures
        file_bytes(later, c[0], data.len()) == data,
    decreases data.len(),
{
    let addr = c[0];
    let old_next = next_of(sector_of(disk, addr));
    assert(is_data_addr(c[0]));
    assert(is_marked(disk, c[0]));
    assert(c.contains(addr));
    assert(in_reach(disk, c, addr));
    if data.len() == 0 {
        assert(file_bytes(later, addr, 0) =~= data);
    } else if data.len() <= 508 {
        lemma_block_image(0, data);
    } else if old_next != 0 {
        lemma_block_image(old_next, data.take(508));
        let image = block_image(old_next, data.take(508));
        let d1 = disk_put(disk, addr, image);
        if c.len() == 1 {
            assert(c.last() == c[0]);
        }
        lemma_list_rest(disk, c);
        let r = c.skip(1);
        assert(is_list(d1, r)) by {
            assert forall|i: int| 0 <= i < r.len() - 1 implies #[trigger] linked(d1, r, i) by {
                assert(linked(disk, r, i));
                assert(r.contains(r[i]));
            }
            assert(r.contains(r.last()));
        }
        assert(all_marked(d1, r)) by {
            assert forall|i: int| 0 <= i < r.len() implies is_marked(d1, #[trigger] r[i]) by {
                assert(r[i] == c[i + 1]);
                assert(is_marked(disk, c[i + 1]));
            }
        }
        let w = write_chain(d1, r[0], data.skip(508)).0;
        assert(w == write_chain(disk, c[0], data).0);
        lemma_write_frame(d1, r, data.skip(508));
        assert(is_marked(d1, addr) == is_marked(disk, addr));
        assert(!in_reach(d1, r, addr));
        assert(sector_of(w, addr) == sector_of(d1, addr));
        assert(sector_of(w, addr) == image);
        assert forall|x: u32| in_reach(d1, r, x) implies sector_of(later, x) == sector_of(
            w,
            x,
        ) by {
            if r.contains(x) {
                let i = choose|i: int| 0 <= i < r.len() && r[i] == x;
                assert(c[i + 1] == x);
            }
            assert(in_reach(disk, c, x));
        }
        lemma_write_reads_back(d1, r, data.skip(508), later);
        assert(sector_of(later, addr) == image);
        assert(payload(image).take(508) =~= payload(image));
        assert(data.take(508) + data.skip(508) =~= data);
    } else {
        match first_free(disk) {
            None => {},
            Some(a) => {
                lemma_first_free_from(disk, 0);
                lemma_mark(disk, a, true, a);
                let d0 = alloc_block(disk, a);
                lemma_block_image(a, data.take(508));
                let image = block_image(a, data.take(508));
                let d1 = disk_put(d0, addr, image);
                let r = seq![a];
                assert(sector_of(d1, a) == zero_sector());
                assert(is_list(d1, r));
                assert(all_marked(d1, r));
                let w = write_chain(d1, r[0], data.skip(508)).0;
                assert(w == write_chain(disk, c[0], data).0);
                lemma_write_frame(d1, r, data.skip(508));
                lemma_mark(disk, a, true, addr);
                assert(is_marked(d1, addr) == is_marked(d0, addr));
                if r.contains(addr) {
                    assert(addr == a);
                }
                assert(!in_reach(d1, r, addr));
                assert(sector_of(w, addr) == sector_of(d1, addr));
                assert(sector_of(w, addr) == image);
                assert forall|x: u32| in_reach(d1, r, x) implies sector_of(later, x)
                    == sector_of(w, x) by {
                    lemma_mark(disk, a, true, x);
                    assert(in_reach(disk, c, x));
                }
                lemma_write_reads_back(d1, r, data.skip(508), later);
                assert(sector_of(later, addr) == image);
                assert(payload(image).take(508) =~= payload(image));
                assert(data.take(508) + data.skip(508) =~= data);
            },
        }
    }
}


/// A write along the chain of a file in good order leaves the directory
/// that holds the file as it was, chain and records.
pub proof fn lemma_write_keeps_dir(
    disk: Seq<Seq<u8>>,
    dir: u32,
    fc: Seq<u32>,
    dc: Seq<u32>,
    data: Seq<u8>,
)
    requires
        disk_wf(disk),
        is_list(disk, fc),
        all_marked(disk, fc),
        dir_chain(disk, dir, dc),
        forall|i: int, j: int| 0 <= i < fc.len() && 0 <= j < dc.len() ==> fc[i] != dc[j],
    ensures
        disk_wf(write_chain(disk, fc[0], data).0),
        dir_chain(write_chain(disk, fc[0], data).0, dir, dc),
        dir_slots(write_chain(disk, fc[0], data).0, dir) == dir_slots(disk, dir),
        forall|j: int| 0 <= j < dc.len() ==> !in_reach(disk, fc, #[trigger] dc[j]),
{
    let w = write_chain(disk, fc[0], data).0;
    lemma_write_frame(disk, fc, data);
    assert forall|j: int| 0 <= j < dc.len() implies !in_reach(disk, fc, #[trigger] dc[j]) by {
        assert(is_marked(disk, dc[j]));
        if fc.contains(dc[j]) {
            let i = choose|i: int| 0 <= i < fc.len() && fc[i] == dc[j];
            assert(fc[i] != dc[j]);
        }
    }
    assert forall|j: int| 0 <= j < dc.len() implies sector_of(w, #[trigger] dc[j]) == sector_of(
        disk,
        dc[j],
    ) by {
        assert(is_data_addr(dc[j]));
        assert(!in_reach(disk, fc, dc[j]));
    }
    assert(is_path(w, dc)) by {
        assert forall|i: int| 0 <= i < dc.len() - 1 implies #[trigger] linked(w, dc, i) by {
            assert(linked(disk, dc, i));
            assert(sector_of(w, dc[i]) == sector_of(disk, dc[i]));
        }
        assert(sector_of(w, dc[dc.len() - 1]) == sector_of(disk, dc[dc.len() - 1]));
    }
    assert(all_marked(w, dc)) by {
        assert forall|i: int| 0 <= i < dc.len() implies is_marked(w, #[trigger] dc[i]) by {
            assert(is_marked(disk, dc[i]));
        }
    }
    assert(sector_of(w, dc[dc.len() - 1]) == sector_of(disk, dc[dc.len() - 1]));
    lemma_dir_slots(disk, dc);
    lemma_dir_slots(w, dc);
    assert forall|i: int| 0 <= i < dc.len() implies payload(sector_of(w, #[trigger] dc[i]))
        == payload(sector_of(disk, dc[i])) by {
        assert(sector_of(w, dc[i]) == sector_of(disk, dc[i]));
    }
    lemma_slots_along_same(disk, w, dc);
}

/// A record whose size alone was rewritten is found under its name as
/// before, with the new size.
pub proof fn lemma_find_after_resize(
    before: Seq<Slot>,
    after: Seq<Slot>,
    name: Seq<u8>,
    size: u32,
)
    requires
        0 <= find_index(before, name) < before.len(),
        after.len() == before.len(),
        forall|j: int|
            0 <= j < before.len() && (#[trigger] before[j]).block == before[find_index(
                before,
                name,
            )].block && before[j].offset == before[find_index(before, name)].offset ==> before[j]
                == before[find_index(before, name)],
        forall|j: int|
            0 <= j < before.len() ==> #[trigger] after[j] == patched(
                before[j],
                before[find_index(before, name)].block,
                before[find_index(before, name)].offset,
                before[find_index(before, name)].addr,
                size,
            ),
    ensures
        find_index(after, name) == find_index(before, name),
        after[find_index(before, name)] == (Slot { size, ..before[find_index(before, name)] }),
{
    let k = find_index(before, name);
    lemma_find_index(before, name);
    assert forall|j: int| 0 <= j < k implies !((#[trigger] after[j]).addr != 0 && after[j].name
        == name) by {
        assert(!(before[j].addr != 0 && before[j].name == name));
    }
    assert(after[k].addr != 0 && after[k].name == name);
    lemma_find_index_is(after, name, k);
}

/// The disk after a write along the chain `fc` of a file and the rewrite
/// of the file's size in its directory, whose chain is `dc`: the file's
/// bytes are the bytes written, and its record says how many they are.
pub proof fn lemma_write_then_read(
    disk: Seq<Seq<u8>>,
    dir: u32,
    name: Seq<u8>,
    fc: Seq<u32>,
    dc: Seq<u32>,
    data: Seq<u8>,
)
    requires
        disk_wf(disk),
        file_chains(disk, dir, fc[0], fc, dc),
        find_index(dir_slots(disk, dir), name) < dir_slots(disk, dir).len(),
        data.len() <= u32::MAX,
        write_chain(disk, fc[0], data).1,
    ensures
        ({
            let after = resized(write_chain(disk, fc[0], data).0, dir, name, data.len() as u32);
            let k = find_index(dir_slots(disk, dir), name);
            &&& disk_wf(after)
            &&& file_bytes(after, fc[0], data.len()) == data
            &&& find_index(dir_slots(after, dir), name) == k
            &&& dir_slots(after, dir).len() == dir_slots(disk, dir).len()
            &&& dir_slots(after, dir)[k] == (Slot {
                size: data.len() as u32,
                ..dir_slots(disk, dir)[k]
            })
        }),
{
    let w = write_chain(disk, fc[0], data).0;
    let size = data.len() as u32;
    lemma_write_keeps_dir(disk, dir, fc, dc, data);
    let before = dir_slots(w, dir);
    let k = find_index(before, name);
    let slot = before[k];
    lemma_find_index(before, name);
    lemma_field_put(w, dir, dc, k, 5, size);
    let after = field_put(w, slot, 5, size);
    assert(after == resized(w, dir, name, size));
    assert forall|x: u32| in_reach(disk, fc, x) implies sector_of(after, x) == sector_of(w, x) by {
        if x == slot.block {
            let j = choose|j: int| 0 <= j < dc.len() && dc[j] == slot.block;
            assert(!in_reach(disk, fc, dc[j]));
        }
    }
    lemma_write_reads_back(disk, fc, data, after);
    lemma_find_after_resize(before, dir_slots(after, dir), name, size);
}

/// After a file in good order is written, the bytes read along its chain,
/// as many as were written, are the bytes written; and a lookup of the
/// file's name in its directory finds a file at the same address whose
/// size is the number of bytes written.
pub proof fn theorem_write_then_read(
    disk: Seq<Seq<u8>>,
    dir: u32,
    name: Seq<u8>,
    addr: u32,
    data: Seq<u8>,
)
    requires
        file_wf(disk, dir, name, addr),
        data.len() <= u32::MAX,
        write_chain(disk, addr, data).1,
    ensures
        ({
            let after = resized(write_chain(disk, addr, data).0, dir, name, data.len() as u32);
            let slots = dir_slots(after, dir);
            let k = find_index(slots, name);
            &&& disk_wf(after)
            &&& file_bytes(after, addr, data.len()) == data
            &&& 0 <= k < slots.len()
            &&& slots[k].kind == FileType::File
            &&& slots[k].addr == addr
            &&& slots[k].size == data.len()
        }),
{
    let (fc, dc) = choose|fc: Seq<u32>, dc: Seq<u32>| file_chains(disk, dir, addr, fc, dc);
    lemma_write_then_read(disk, dir, name, fc, dc, data);
}


/// On a disk with no free block, a write that needs more blocks than the
/// file's chain has fails, and leaves the bitmap as it was.
pub proof fn theorem_full_disk_write(disk: Seq<Seq<u8>>, c: Seq<u32>, data: Seq<u8>)
    requires
        disk_wf(disk),
        is_list(disk, c),
        first_free(disk) is None,
        data.len() > 508 * c.len(),
    ensures
        !write_chain(disk, c[0], data).1,
        forall|s: u32|
            is_bitmap_addr(s) ==> #[trigger] sector_of(write_chain(disk, c[0], data).0, s) == sector_of(
                disk,
                s,
            ),
    decreases data.len(),
{
    let addr = c[0];
    let old_next = next_of(sector_of(disk, addr));
    assert(is_data_addr(c[0]));
    if old_next != 0 {
        let d1 = disk_put(disk, addr, block_image(old_next, data.take(508)));
        if c.len() == 1 {
            assert(c.last() == c[0]);
        }
        lemma_list_rest(disk, c);
        lemma_block_image(old_next, data.take(508));
        let r = c.skip(1);
        assert(is_list(d1, r)) by {
            assert forall|i: int| 0 <= i < r.len() - 1 implies #[trigger] linked(d1, r, i) by {
                assert(linked(disk, r, i));
                assert(r.contains(r[i]));
            }
            assert(r.contains(r.last()));
        }
        lemma_first_free_same(disk, d1, 0);
        theorem_full_disk_write(d1, r, data.skip(508));
    }
}


/// A file that was just made in a directory in good order is in good
/// order: one block of zeros, found under its name.
pub proof fn theorem_created_file_in_order(disk: Seq<Seq<u8>>, dir: u32, name: Seq<u8>)
    requires
        dir_wf(disk, dir),
        can_create(disk, dir, name),
    ensures
        file_wf(
            created(disk, dir, FileType::File, name),
            dir,
            name,
            created_addr(disk, dir, name),
        ),
{
    let c = choose|c: Seq<u32>| dir_chain(disk, dir, c);
    let after = created(disk, dir, FileType::File, name);
    let addr = created_addr(disk, dir, name);
    lemma_created_slots(disk, dir, c, FileType::File, name);
    lemma_find_after_push(dir_slots(disk, dir), new_slot(disk, dir, FileType::File, name), name);
    theorem_create_keeps_order(disk, dir, FileType::File, name);
    let fc = seq![addr];
    let dc = chain_after(disk, dir, c, name);
    assert(is_list(after, fc));
    assert forall|i: int, j: int| 0 <= i < fc.len() && 0 <= j < dc.len() implies fc[i]
        != dc[j] by {
        if fc[i] == dc[j] {
            assert(dc.contains(addr));
        }
    }
    assert(file_chains(after, dir, addr, fc, dc));
}

/// The chain of a file after a write along `c` that came to its end, where
/// something was written: a chain of blocks marked used, which starts
/// where `c` starts and is made of blocks that the write could reach.
pub proof fn lemma_written_chain(disk: Seq<Seq<u8>>, c: Seq<u32>, data: Seq<u8>) -> (c2: Seq<u32>)
    requires
        disk_wf(disk),
        is_list(disk, c),
        all_marked(disk, c),
        write_chain(disk, c[0], data).1,
        data.len() > 0,
    ensures
        is_list(write_chain(disk, c[0], data).0, c2),
        c2[0] == c[0],
        all_marked(write_chain(disk, c[0], data).0, c2),
        forall|i: int| 0 <= i < c2.len() ==> in_reach(disk, c, #[trigger] c2[i]),
    decreases data.len(),
{
    let addr = c[0];
    let old_next = next_of(sector_of(disk, addr));
    let w = write_chain(disk, addr, data).0;
    assert(is_data_addr(c[0]));
    assert(is_marked(disk, c[0]));
    assert(c.contains(addr));
    lemma_write_frame(disk, c, data);
    if data.len() <= 508 {
        lemma_block_image(0, data);
        let c2 = seq![addr];
        assert(is_list(w, c2));
        c2
    } else {
        let (d1, r) = if old_next != 0 {
            (disk_put(disk, addr, block_image(old_next, data.take(508))), c.skip(1))
        } else {
            let a = first_free(disk)->0;
            (disk_put(alloc_block(disk, a), addr, block_image(a, data.take(508))), seq![a])
        };
        let next = r[0];
        if old_next != 0 {
            lemma_block_image(old_next, data.take(508));
            if c.len() == 1 {
                assert(c.last() == c[0]);
            }
            lemma_list_rest(disk, c);
            assert(is_list(d1, r)) by {
                assert forall|i: int| 0 <= i < r.len() - 1 implies #[trigger] linked(d1, r, i) by {
                    assert(linked(disk, r, i));
                    assert(r.contains(r[i]));
                }
                assert(r.contains(r.last()));
            }
            assert(all_marked(d1, r)) by {
                assert forall|i: int| 0 <= i < r.len() implies is_marked(d1, #[trigger] r[i]) by {
                    assert(r[i] == c[i + 1]);
                    assert(is_marked(disk, c[i + 1]));
                }
            }
            assert(is_marked(d1, addr) == is_marked(disk, addr));
        } else {
            let a = first_free(disk)->0;
            lemma_first_free_from(disk, 0);
            lemma_mark(disk, a, true, a);
            lemma_mark(disk, a, true, addr);
            lemma_block_image(a, data.take(508));
            assert(sector_of(d1, a) == zero_sector());
            assert(is_list(d1, r));
            assert(all_marked(d1, r));
            assert(is_marked(d1, addr) == is_marked(alloc_block(disk, a), addr));
            if r.contains(addr) {
                assert(addr == a);
            }
        }
        assert(!in_reach(d1, r, addr));
        assert(w == write_chain(d1, r[0], data.skip(508)).0);
        lemma_write_frame(d1, r, data.skip(508));
        assert(sector_of(w, addr) == sector_of(d1, addr));
        let rest = lemma_written_chain(d1, r, data.skip(508));
        let c2 = seq![addr] + rest;
        assert forall|i: int| 0 <= i < c2.len() implies in_reach(disk, c, #[trigger] c2[i]) by {
            if i > 0 {
                assert(c2[i] == rest[i - 1]);
                assert(in_reach(d1, r, rest[i - 1]));
                let x = rest[i - 1];
                if r.contains(x) {
                    let k = choose|k: int| 0 <= k < r.len() && r[k] == x;
                    if old_next != 0 {
                        assert(c[k + 1] == x);
                    } else {
                        lemma_first_free_from(disk, 0);
                    }
                } else {
                    if old_next != 0 {
                        assert(is_marked(d1, x) == is_marked(disk, x));
                    } else {
                        lemma_mark(disk, first_free(disk)->0, true, x);
                        assert(is_marked(d1, x) == is_marked(
                            alloc_block(disk, first_free(disk)->0),
                            x,
                        ));
                    }
                }
            }
        }
        assert(is_list(w, c2)) by {
            assert forall|i: int| 0 <= i < c2.len() implies is_data_addr(#[trigger] c2[i]) by {
                if i > 0 {
                    assert(c2[i] == rest[i - 1]);
                }
            }
            assert forall|i: int| 0 <= i < c2.len() - 1 implies #[trigger] linked(w, c2, i) by {
                if i > 0 {
                    assert(linked(w, rest, i - 1));
                    assert(c2[i] == rest[i - 1]);
                    assert(c2[i + 1] == rest[i]);
                } else {
                    assert(c2[1] == rest[0]);
                }
            }
            assert(c2.last() == rest.last());
            assert forall|i: int, j: int| 0 <= i < j < c2.len() implies c2[i] != c2[j] by {
                assert(c2[j] == rest[j - 1]);
                if i > 0 {
                    assert(c2[i] == rest[i - 1]);
                } else {
                    assert(in_reach(d1, r, rest[j - 1]));
                }
            }
        }
        assert(all_marked(w, c2)) by {
            assert forall|i: int| 0 <= i < c2.len() implies is_marked(w, #[trigger] c2[i]) by {
                if i > 0 {
                    assert(c2[i] == rest[i - 1]);
                    assert(is_marked(w, rest[i - 1]));
                }
            }
        }
        c2
    }
}

/// A file in good order is in good order after a write to it that came to
/// its end.
pub proof fn theorem_write_keeps_order(
    disk: Seq<Seq<u8>>,
    dir: u32,
    name: Seq<u8>,
    addr: u32,
    data: Seq<u8>,
)
    requires
        file_wf(disk, dir, name, addr),
        data.len() <= u32::MAX,
        write_chain(disk, addr, data).1,
    ensures
        file_wf(
            resized(write_chain(disk, addr, data).0, dir, name, data.len() as u32),
            dir,
            name,
            addr,
        ),
{
    let (fc, dc) = choose|fc: Seq<u32>, dc: Seq<u32>| file_chains(disk, dir, addr, fc, dc);
    let w = write_chain(disk, addr, data).0;
    let size = data.len() as u32;
    let after = resized(w, dir, name, size);
    lemma_write_then_read(disk, dir, name, fc, dc, data);
    lemma_write_keeps_dir(disk, dir, fc, dc, data);
    lemma_write_frame(disk, fc, data);
    let before = dir_slots(w, dir);
    let k = find_index(before, name);
    let slot = before[k];
    lemma_field_put(w, dir, dc, k, 5, size);
    assert(after == field_put(w, slot, 5, size));
    let c2 = if data.len() > 0 {
        lemma_written_chain(disk, fc, data)
    } else {
        fc
    };
    assert(!is_bitmap_addr(slot.block)) by {
        let j = choose|j: int| 0 <= j < dc.len() && dc[j] == slot.block;
        assert(is_data_addr(dc[j]));
    }
    assert forall|i: int| 0 <= i < c2.len() implies sector_of(after, #[trigger] c2[i])
        == sector_of(w, c2[i]) by {
        if c2[i] == slot.block {
            let j = choose|j: int| 0 <= j < dc.len() && dc[j] == slot.block;
            assert(!in_reach(disk, fc, dc[j]));
            if data.len() == 0 {
                assert(fc.contains(c2[i]));
            }
        }
    }
    assert(is_list(after, c2)) by {
        assert forall|i: int| 0 <= i < c2.len() - 1 implies #[trigger] linked(after, c2, i) by {
            assert(linked(w, c2, i));
            assert(sector_of(after, c2[i]) == sector_of(w, c2[i]));
        }
        assert(sector_of(after, c2[c2.len() - 1]) == sector_of(w, c2[c2.len() - 1]));
    }
    assert(all_marked(after, c2)) by {
        assert forall|i: int| 0 <= i < c2.len() implies is_marked(after, #[trigger] c2[i]) by {
            assert(is_marked(w, c2[i]));
        }
    }
    assert forall|i: int, j: int| 0 <= i < c2.len() && 0 <= j < dc.len() implies c2[i]
        != dc[j] by {
        assert(!in_reach(disk, fc, dc[j]));
        if data.len() == 0 {
            assert(fc.contains(c2[i]));
        } else {
            assert(in_reach(disk, fc, c2[i]));
        }
    }
    assert(file_chains(after, dir, addr, c2, dc));
    let slots = dir_slots(after, dir);
    assert(names_unique(slots)) by {
        assert forall|i: int, j: int|
            0 <= i < j < slots.len() && slots[i].addr != 0 && slots[j].addr != 0 implies slots[i].name
            != slots[j].name by {
            assert(slots[i].name == before[i].name && slots[i].addr == before[i].addr);
            assert(slots[j].name == before[j].name && slots[j].addr == before[j].addr);
        }
    }
}

/// Marking the blocks of a chain free changes the mark of no block
/// outside the chain.
pub proof fn lemma_free_chain_marks(disk: Seq<Seq<u8>>, c: Seq<u32>, hops: nat, x: u32)
    requires
        disk_wf(disk),
        is_list(disk, c),
        !c.contains(x),
    ensures
        is_marked(free_chain(disk, c[0], hops), x) == is_marked(disk, x),
    decreases hops,
{
    let next = next_of(sector_of(disk, c[0]));
    let freed = with_mark(disk, c[0], false);
    assert(is_data_addr(c[0]));
    assert(c.contains(c[0]));
    lemma_mark(disk, c[0], false, x);
    if !(next == 0 || hops == 0) {
        if c.len() == 1 {
            assert(c.last() == c[0]);
        }
        lemma_list_rest(disk, c);
        let r = c.skip(1);
        assert(is_list(freed, r)) by {
            assert forall|i: int| 0 <= i < r.len() - 1 implies #[trigger] linked(freed, r, i) by {
                assert(linked(disk, r, i));
                assert(is_data_addr(r[i]));
            }
            assert(is_data_addr(r[r.len() - 1]));
        }
        if r.contains(x) {
            let i = choose|i: int| 0 <= i < r.len() && r[i] == x;
            assert(c[i + 1] == x);
        }
        lemma_free_chain_marks(freed, r, (hops - 1) as nat, x);
    }
}

/// A directory in good order is in good order after one of its entries is
/// deleted, where the chain of that entry is in good order and shares no
/// block with the directory's.
pub proof fn theorem_delete_keeps_order(
    disk: Seq<Seq<u8>>,
    dir: u32,
    name: Seq<u8>,
    fc: Seq<u32>,
    dc: Seq<u32>,
)
    requires
        dir_wf(disk, dir),
        0 <= find_index(dir_slots(disk, dir), name) < dir_slots(disk, dir).len(),
        file_chains(disk, dir, dir_slots(disk, dir)[find_index(dir_slots(disk, dir), name)].addr, fc, dc),
    ensures
        dir_wf(deleted(disk, dir, name), dir),
{
    let slots = dir_slots(disk, dir);
    let k = find_index(slots, name);
    let slot = slots[k];
    lemma_field_put(disk, dir, dc, k, 1, 0);
    let dead = field_put(disk, slot, 1, 0);
    let gone = deleted(disk, dir, name);
    assert(gone == free_chain(dead, slot.addr, MAX_HOPS as nat));
    theorem_delete_then_find(disk, dir, name, name);
    lemma_free_chain_frame(dead, slot.addr, MAX_HOPS as nat);
    assert forall|i: int| 0 <= i < fc.len() implies sector_of(dead, #[trigger] fc[i])
        == sector_of(disk, fc[i]) by {
        if fc[i] == slot.block {
            let j = choose|j: int| 0 <= j < dc.len() && dc[j] == slot.block;
            assert(fc[i] != dc[j]);
        }
    }
    assert(is_list(dead, fc)) by {
        assert forall|i: int| 0 <= i < fc.len() - 1 implies #[trigger] linked(dead, fc, i) by {
            assert(linked(disk, fc, i));
            assert(sector_of(dead, fc[i]) == sector_of(disk, fc[i]));
        }
        assert(sector_of(dead, fc[fc.len() - 1]) == sector_of(disk, fc[fc.len() - 1]));
    }
    assert forall|j: int| 0 <= j < dc.len() implies sector_of(gone, #[trigger] dc[j])
        == sector_of(dead, dc[j]) by {
        assert(is_data_addr(dc[j]));
    }
    assert(is_path(gone, dc)) by {
        assert forall|i: int| 0 <= i < dc.len() - 1 implies #[trigger] linked(gone, dc, i) by {
            assert(linked(dead, dc, i));
            assert(sector_of(gone, dc[i]) == sector_of(dead, dc[i]));
        }
        assert(sector_of(gone, dc[dc.len() - 1]) == sector_of(dead, dc[dc.len() - 1]));
    }
    assert(all_marked(gone, dc)) by {
        assert forall|j: int| 0 <= j < dc.len() implies is_marked(gone, #[trigger] dc[j]) by {
            if fc.contains(dc[j]) {
                let i = choose|i: int| 0 <= i < fc.len() && fc[i] == dc[j];
                assert(fc[i] != dc[j]);
            }
            lemma_free_chain_marks(dead, fc, MAX_HOPS as nat, dc[j]);
            assert(is_marked(dead, dc[j]));
        }
    }
    assert(sector_of(gone, dc[dc.len() - 1]) == sector_of(dead, dc[dc.len() - 1]));
    assert(dir_chain(gone, dir, dc));
}


/// A chain stays a chain on a disk that holds in its blocks what the first
/// disk holds there.
pub proof fn lemma_list_kept(disk: Seq<Seq<u8>>, after: Seq<Seq<u8>>, c: Seq<u32>)
    requires
        is_list(disk, c),
        forall|i: int| 0 <= i < c.len() ==> sector_of(after, #[trigger] c[i]) == sector_of(
            disk,
            c[i],
        ),
    ensures
        is_list(after, c),
{
    assert forall|i: int| 0 <= i < c.len() - 1 implies #[trigger] linked(after, c, i) by {
        assert(linked(disk, c, i));
        assert(sector_of(after, c[i]) == sector_of(disk, c[i]));
    }
    assert(sector_of(after, c[c.len() - 1]) == sector_of(disk, c[c.len() - 1]));
}

/// The bytes read along a chain are the same on a disk that holds in the
/// chain's blocks what the first disk holds there.
pub proof fn theorem_same_blocks_same_bytes(
    disk: Seq<Seq<u8>>,
    after: Seq<Seq<u8>>,
    c: Seq<u32>,
    limit: nat,
)
    requires
        is_list(disk, c),
        forall|i: int| 0 <= i < c.len() ==> sector_of(after, #[trigger] c[i]) == sector_of(
            disk,
            c[i],
        ),
    ensures
        file_bytes(after, c[0], limit) == file_bytes(disk, c[0], limit),
    decreases limit,
{
    assert(sector_of(after, c[0]) == sector_of(disk, c[0]));
    let next = next_of(sector_of(disk, c[0]));
    if limit > 508 && next != 0 {
        if c.len() == 1 {
            assert(c.last() == c[0]);
        }
        lemma_list_rest(disk, c);
        let r = c.skip(1);
        assert forall|i: int| 0 <= i < r.len() implies sector_of(after, #[trigger] r[i])
            == sector_of(disk, r[i]) by {
            assert(r[i] == c[i + 1]);
        }
        theorem_same_blocks_same_bytes(disk, after, r, (limit - 508) as nat);
    }
}

/// A write to one file in good order, with the rewrite of its size,
/// leaves every block of another chain of blocks marked used as it was,
/// and marked used, where that chain shares no block with the file's chain
/// nor with the chain of the file's directory.
pub proof fn theorem_write_keeps_others(
    disk: Seq<Seq<u8>>,
    dir: u32,
    name: Seq<u8>,
    fc: Seq<u32>,
    dc: Seq<u32>,
    data: Seq<u8>,
    oc: Seq<u32>,
)
    requires
        disk_wf(disk),
        file_chains(disk, dir, fc[0], fc, dc),
        data.len() <= u32::MAX,
        forall|i: int| 0 <= i < oc.len() ==> is_data_addr(#[trigger] oc[i]) && is_marked(disk, oc[i]),
        forall|i: int, j: int| 0 <= i < oc.len() && 0 <= j < fc.len() ==> oc[i] != fc[j],
        forall|i: int, j: int| 0 <= i < oc.len() && 0 <= j < dc.len() ==> oc[i] != dc[j],
    ensures
        ({
            let after = resized(write_chain(disk, fc[0], data).0, dir, name, data.len() as u32);
            forall|i: int|
                0 <= i < oc.len() ==> sector_of(after, #[trigger] oc[i]) == sector_of(disk, oc[i])
                    && is_marked(after, oc[i])
        }),
{
    let w = write_chain(disk, fc[0], data).0;
    let size = data.len() as u32;
    let after = resized(w, dir, name, size);
    lemma_write_frame(disk, fc, data);
    lemma_write_keeps_dir(disk, dir, fc, dc, data);
    let slots = dir_slots(w, dir);
    let k = find_index(slots, name);
    lemma_find_index(slots, name);
    if k < slots.len() {
        lemma_field_put(w, dir, dc, k, 5, size);
        assert(after == field_put(w, slots[k], 5, size));
        let j = choose|j: int| 0 <= j < dc.len() && dc[j] == slots[k].block;
        assert(is_data_addr(dc[j]));
    }
    assert forall|i: int| 0 <= i < oc.len() implies sector_of(after, #[trigger] oc[i])
        == sector_of(disk, oc[i]) && is_marked(after, oc[i]) by {
        let x = oc[i];
        if fc.contains(x) {
            let j = choose|j: int| 0 <= j < fc.len() && fc[j] == x;
            assert(oc[i] != fc[j]);
        }
        assert(!in_reach(disk, fc, x));
        assert(sector_of(w, x) == sector_of(disk, x));
        assert(is_marked(w, x));
        if k < slots.len() {
            if x == slots[k].block {
                let j = choose|j: int| 0 <= j < dc.len() && dc[j] == slots[k].block;
                assert(oc[i] != dc[j]);
            }
        }
    }
}

/// Deleting an entry of a directory in good order leaves every block of
/// another chain as it was, and marked as it was, where that chain shares
/// no block with the chain of the entry nor with the directory's.
pub proof fn theorem_delete_keeps_others(
    disk: Seq<Seq<u8>>,
    dir: u32,
    name: Seq<u8>,
    fc: Seq<u32>,
    dc: Seq<u32>,
    oc: Seq<u32>,
)
    requires
        disk_wf(disk),
        0 <= find_index(dir_slots(disk, dir), name) < dir_slots(disk, dir).len(),
        file_chains(disk, dir, dir_slots(disk, dir)[find_index(dir_slots(disk, dir), name)].addr, fc, dc),
        forall|i: int| 0 <= i < oc.len() ==> is_data_addr(#[trigger] oc[i]),
        forall|i: int, j: int| 0 <= i < oc.len() && 0 <= j < fc.len() ==> oc[i] != fc[j],
        forall|i: int, j: int| 0 <= i < oc.len() && 0 <= j < dc.len() ==> oc[i] != dc[j],
    ensures
        forall|i: int|
            0 <= i < oc.len() ==> sector_of(deleted(disk, dir, name), #[trigger] oc[i])
                == sector_of(disk, oc[i]) && is_marked(deleted(disk, dir, name), oc[i])
                == is_marked(disk, oc[i]),
{
    let slots = dir_slots(disk, dir);
    let k = find_index(slots, name);
    let slot = slots[k];
    lemma_field_put(disk, dir, dc, k, 1, 0);
    let dead = field_put(disk, slot, 1, 0);
    let gone = deleted(disk, dir, name);
    assert(gone == free_chain(dead, slot.addr, MAX_HOPS as nat));
    lemma_free_chain_frame(dead, slot.addr, MAX_HOPS as nat);
    let b = choose|j: int| 0 <= j < dc.len() && dc[j] == slot.block;
    assert(is_data_addr(dc[b]));
    assert forall|i: int| 0 <= i < fc.len() implies sector_of(dead, #[trigger] fc[i])
        == sector_of(disk, fc[i]) by {
        if fc[i] == slot.block {
            assert(fc[i] != dc[b]);
        }
    }
    lemma_list_kept(disk, dead, fc);
    assert forall|i: int| 0 <= i < oc.len() implies sector_of(gone, #[trigger] oc[i])
        == sector_of(disk, oc[i]) && is_marked(gone, oc[i]) == is_marked(disk, oc[i]) by {
        let x = oc[i];
        assert(is_data_addr(x));
        if x == slot.block {
            assert(oc[i] != dc[b]);
        }
        if fc.contains(x) {
            let j = choose|j: int| 0 <= j < fc.len() && fc[j] == x;
            assert(oc[i] != fc[j]);
        }
        lemma_free_chain_marks(dead, fc, MAX_HOPS as nat, x);
        assert(is_marked(dead, x) == is_marked(disk, x));
    }
}


/// Two runs of records that agree, record by record, in name and address
/// give the same index to a lookup.
pub proof fn lemma_find_same_keys(before: Seq<Slot>, after: Seq<Slot>, name: Seq<u8>)
    requires
        after.len() == before.len(),
        forall|j: int|
            0 <= j < before.len() ==> (#[trigger] after[j]).addr == before[j].addr && after[j].name
                == before[j].name,
    ensures
        find_index(after, name) == find_index(before, name),
{
    lemma_find_index(before, name);
    let k = find_index(before, name);
    assert forall|j: int| 0 <= j < k implies !((#[trigger] after[j]).addr != 0 && after[j].name
        == name) by {
        assert(!(before[j].addr != 0 && before[j].name == name));
    }
    if k < before.len() {
        assert(after[k].addr == before[k].addr && after[k].name == before[k].name);
    }
    lemma_find_index_is(after, name, k);
}

/// After a write to a file and the rewrite of its size, a lookup of any
/// name in the file's directory finds what it found before, but for the
/// size of the file's own record.
pub proof fn lemma_write_keeps_lookup(
    disk: Seq<Seq<u8>>,
    dir: u32,
    name: Seq<u8>,
    fc: Seq<u32>,
    dc: Seq<u32>,
    data: Seq<u8>,
    other: Seq<u8>,
)
    requires
        disk_wf(disk),
        file_chains(disk, dir, fc[0], fc, dc),
        0 <= find_index(dir_slots(disk, dir), name) < dir_slots(disk, dir).len(),
        data.len() <= u32::MAX,
    ensures
        ({
            let after = resized(write_chain(disk, fc[0], data).0, dir, name, data.len() as u32);
            let k = find_index(dir_slots(disk, dir), other);
            &&& dir_slots(after, dir).len() == dir_slots(disk, dir).len()
            &&& find_index(dir_slots(after, dir), other) == k
            &&& 0 <= k < dir_slots(disk, dir).len() ==> dir_slots(after, dir)[k].kind
                == dir_slots(disk, dir)[k].kind && dir_slots(after, dir)[k].addr == dir_slots(
                disk,
                dir,
            )[k].addr
        }),
{
    let w = write_chain(disk, fc[0], data).0;
    let size = data.len() as u32;
    lemma_write_keeps_dir(disk, dir, fc, dc, data);
    let before = dir_slots(w, dir);
    let k = find_index(before, name);
    lemma_field_put(w, dir, dc, k, 5, size);
    let after = field_put(w, before[k], 5, size);
    assert(after == resized(w, dir, name, size));
    let slots = dir_slots(after, dir);
    assert forall|j: int| 0 <= j < before.len() implies (#[trigger] slots[j]).addr
        == before[j].addr && slots[j].name == before[j].name && slots[j].kind
        == before[j].kind by {
        assert(slots[j] == patched(
            before[j],
            before[k].block,
            before[k].offset,
            before[k].addr,
            size,
        ));
        if before[j].block == before[k].block && before[j].offset == before[k].offset {
            assert(before[j] == before[k]);
        }
    }
    lemma_find_same_keys(before, slots, other);
    lemma_find_index(before, other);
}

/// Whether each directory on the way that the names of `p` lead from the
/// directory at `from` is the directory at `parent` or another one in good
/// order, whose chain shares no block with the chains `fc` and `dc`.
pub open spec fn way_in_order(
    disk: Seq<Seq<u8>>,
    from: u32,
    p: Seq<u8>,
    parent: u32,
    fc: Seq<u32>,
    dc: Seq<u32>,
) -> bool
    decreases p.len(),
{
    let k = first_slash(p);
    let slots = dir_slots(disk, from);
    let f = find_index(slots, p.take(k));
    &&& from == parent || exists|oc: Seq<u32>| side_dir(disk, from, oc, fc, dc)
    &&& 0 <= f < slots.len() && slots[f].kind == FileType::Dir && 0 <= k < p.len()
        ==> way_in_order(disk, slots[f].addr, p.skip(k + 1), parent, fc, dc)
}

/// `oc` is the chain of the directory at `dir`, in good order, and shares
/// no block with the chains `fc` and `dc`.
pub open spec fn side_dir(
    disk: Seq<Seq<u8>>,
    dir: u32,
    oc: Seq<u32>,
    fc: Seq<u32>,
    dc: Seq<u32>,
) -> bool {
    &&& dir_chain(disk, dir, oc)
    &&& forall|i: int, j: int| 0 <= i < oc.len() && 0 <= j < fc.len() ==> oc[i] != fc[j]
    &&& forall|i: int, j: int| 0 <= i < oc.len() && 0 <= j < dc.len() ==> oc[i] != dc[j]
}

/// A write to a file in good order, with the rewrite of its size, leaves
/// the way that the names of a path lead as it was, where the directories
/// on the way are in good order.
pub proof fn theorem_write_keeps_way(
    disk: Seq<Seq<u8>>,
    parent: u32,
    name: Seq<u8>,
    fc: Seq<u32>,
    dc: Seq<u32>,
    data: Seq<u8>,
    from: u32,
    p: Seq<u8>,
)
    requires
        disk_wf(disk),
        file_chains(disk, parent, fc[0], fc, dc),
        0 <= find_index(dir_slots(disk, parent), name) < dir_slots(disk, parent).len(),
        data.len() <= u32::MAX,
        way_in_order(disk, from, p, parent, fc, dc),
    ensures
        walk(
            resized(write_chain(disk, fc[0], data).0, parent, name, data.len() as u32),
            from,
            p,
        ) == walk(disk, from, p),
    decreases p.len(),
{
    let after = resized(write_chain(disk, fc[0], data).0, parent, name, data.len() as u32);
    let k = first_slash(p);
    let slots = dir_slots(disk, from);
    let f = find_index(slots, p.take(k));
    lemma_find_index(slots, p.take(k));
    if from == parent {
        lemma_write_keeps_lookup(disk, parent, name, fc, dc, data, p.take(k));
    } else {
        let oc = choose|oc: Seq<u32>| side_dir(disk, from, oc, fc, dc);
        assert forall|i: int| 0 <= i < oc.len() implies is_data_addr(#[trigger] oc[i])
            && is_marked(disk, oc[i]) by {}
        theorem_write_keeps_others(disk, parent, name, fc, dc, data, oc);
        lemma_dir_kept(disk, after, from, oc);
    }
    if 0 <= f < slots.len() && slots[f].kind == FileType::Dir && 0 <= k < p.len() {
        theorem_write_keeps_way(disk, parent, name, fc, dc, data, slots[f].addr, p.skip(k + 1));
    }
}

/// After a file in good order is written, its path leads to it as before:
/// the directory part opens the same directory, a lookup of the name there
/// finds a file at the same address whose size is the number of bytes
/// written, and the bytes read along its chain are the bytes written.
pub proof fn theorem_write_then_reopen(
    disk: Seq<Seq<u8>>,
    parent: u32,
    name: Seq<u8>,
    fc: Seq<u32>,
    dc: Seq<u32>,
    data: Seq<u8>,
    path: Seq<u8>,
)
    requires
        disk_wf(disk),
        file_chains(disk, parent, fc[0], fc, dc),
        0 <= find_index(dir_slots(disk, parent), name) < dir_slots(disk, parent).len(),
        dir_slots(disk, parent)[find_index(dir_slots(disk, parent), name)].addr == fc[0],
        dir_slots(disk, parent)[find_index(dir_slots(disk, parent), name)].kind == FileType::File,
        data.len() <= u32::MAX,
        write_chain(disk, fc[0], data).1,
        open_dir(disk, path) == Some(parent),
        path != seq![SLASH] ==> way_in_order(
            disk,
            DATA_ADDR_OFFSET,
            trim_slashes(path),
            parent,
            fc,
            dc,
        ),
    ensures
        ({
            let after = resized(write_chain(disk, fc[0], data).0, parent, name, data.len() as u32);
            let slots = dir_slots(after, parent);
            let k = find_index(slots, name);
            &&& open_dir(after, path) == Some(parent)
            &&& 0 <= k < slots.len()
            &&& slots[k].kind == FileType::File
            &&& slots[k].addr == fc[0]
            &&& slots[k].size == data.len()
            &&& file_bytes(after, fc[0], data.len()) == data
        }),
{
    lemma_write_then_read(disk, parent, name, fc, dc, data);
    if path != seq![SLASH] {
        theorem_write_keeps_way(
            disk,
            parent,
            name,
            fc,
            dc,
            data,
            DATA_ADDR_OFFSET,
            trim_slashes(path),
        );
    }
}

} // verus!
