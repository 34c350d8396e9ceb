//! What holds of a directory in good order when entries are added to it
//! and deleted from it.

use crate::parva_fs::bitmap::{
    alloc_block, first_free, is_marked, lemma_first_free_from, lemma_mark,
    with_mark,
};
use crate::parva_fs::block::{next_of, payload};
use crate::parva_fs::chain::{
    all_marked, is_path, lemma_block_slots_patched, lemma_block_slots_push,
    lemma_data_blocks_bound, lemma_dir_slots, lemma_on_scan, lemma_scan_end, lemma_slots_along_add, lemma_slots_along_members,
    lemma_slots_along_patched, lemma_slots_along_same, lemma_tail, linked, patched,
    slots_along,
};
use crate::parva_fs::dir::{
    block_slots, can_create, created, created_addr, deleted, dir_slots, dir_tail,
    dir_tail_offset, entry_image, find_index, free_chain, lemma_find_index,
    lemma_find_index_is, scan_end, second_free, slot_at, splice, tail_has_room,
    FileType, Slot,
};
use crate::parva_fs::layout::{
    be32, disk_put, disk_wf, is_bitmap_addr, is_data_addr, lemma_be32_put, put_be32, sector_of,
    zero_sector, DATA_ADDR_OFFSET, MAX_HOPS,
};
use crate::parva_fs::mount::formatted;
use vstd::prelude::*;

verus! {

/// After the last record of the payload `p` come only zeros.
pub open spec fn rest_is_zero(p: Seq<u8>) -> bool {
    forall|j: int| 0 <= j < 508 && scan_end(p, 0) <= j ==> p[j] == 0
}

/// `c` is the chain of the directory at `dir`, and in good order: its
/// blocks are marked used, one more block can join it and still be reached,
/// and its last block holds only zeros after its last record.
pub open spec fn dir_chain(disk: Seq<Seq<u8>>, dir: u32, c: Seq<u32>) -> bool {
    &&& is_path(disk, c)
    &&& c.len() <= MAX_HOPS
    &&& c[0] == dir
    &&& all_marked(disk, c)
    &&& rest_is_zero(payload(sector_of(disk, c.last())))
}

/// No two live records bear the same name.
pub open spec fn names_unique(slots: Seq<Slot>) -> bool {
    forall|i: int, j: int|
        0 <= i < j < slots.len() && slots[i].addr != 0 && slots[j].addr != 0 ==> slots[i].name
            != slots[j].name
}

/// The directory at `dir` is in good order on a disk in good order.
pub open spec fn dir_wf(disk: Seq<Seq<u8>>, dir: u32) -> bool {
    &&& disk_wf(disk)
    &&& names_unique(dir_slots(disk, dir))
    &&& exists|c: Seq<u32>| dir_chain(disk, dir, c)
}

/// A lookup of `name` ends alike in two runs of records: found in both or
/// in neither, and where found, the same record.
pub open spec fn same_finding(before: Seq<Slot>, after: Seq<Slot>, name: Seq<u8>) -> bool {
    let k = find_index(before, name);
    let m = find_index(after, name);
    &&& k < before.len() <==> m < after.len()
    &&& k < before.len() ==> before[k] == after[m]
}

/// The record that a successful `create_entry` adds.
pub open spec fn new_slot(disk: Seq<Seq<u8>>, dir: u32, kind: FileType, name: Seq<u8>) -> Slot {
    if tail_has_room(disk, dir, name) {
        Slot {
            block: dir_tail(disk, dir),
            offset: dir_tail_offset(disk, dir),
            kind,
            addr: first_free(disk)->0,
            size: 0,
            name,
        }
    } else {
        Slot {
            block: first_free(disk)->0,
            offset: 0,
            kind,
            addr: second_free(disk)->0,
            size: 0,
            name,
        }
    }
}

/// One more record at the end is found under its own name where no live
/// record bore that name, and changes the lookup of no other name.
pub proof fn lemma_find_after_push(slots: Seq<Slot>, new: Slot, other: Seq<u8>)
    requires
        new.addr != 0,
        find_index(slots, new.name) == slots.len(),
    ensures
        find_index(slots.push(new), new.name) == slots.len(),
        other != new.name ==> same_finding(slots, slots.push(new), other),
        names_unique(slots) ==> names_unique(slots.push(new)),
{
    let more = slots.push(new);
    lemma_find_index(slots, new.name);
    assert forall|j: int| 0 <= j < slots.len() implies !((#[trigger] more[j]).addr != 0
        && more[j].name == new.name) by {
        assert(more[j] == slots[j]);
    }
    lemma_find_index_is(more, new.name, slots.len() as int);
    if other != new.name {
        lemma_find_index(slots, other);
        let k = find_index(slots, other);
        if k < slots.len() {
            assert forall|j: int| 0 <= j < k implies !((#[trigger] more[j]).addr != 0
                && more[j].name == other) by {
                assert(more[j] == slots[j]);
            }
            assert(more[k] == slots[k]);
            lemma_find_index_is(more, other, k);
        } else {
            assert forall|j: int| 0 <= j < more.len() implies !((#[trigger] more[j]).addr != 0
                && more[j].name == other) by {
                if j < slots.len() {
                    assert(more[j] == slots[j]);
                }
            }
            lemma_find_index_is(more, other, more.len() as int);
        }
    }
    if names_unique(slots) {
        assert forall|i: int, j: int|
            0 <= i < j < more.len() && more[i].addr != 0 && more[j].addr != 0 implies more[i].name
            != more[j].name by {
            assert(more[i] == slots[i]);
            if j < slots.len() {
                assert(more[j] == slots[j]);
            }
        }
    }
}

/// The chain of a directory after an entry is added: `c` as it was, or `c`
/// with the block that became the new tail.
pub open spec fn chain_after(disk: Seq<Seq<u8>>, dir: u32, c: Seq<u32>, name: Seq<u8>) -> Seq<
    u32,
> {
    if tail_has_room(disk, dir, name) {
        c
    } else {
        c.push(first_free(disk)->0)
    }
}

/// The records of a directory in good order after an entry is added: those
/// before, and the new one after them. The directory's chain is then `c`
/// itself, or `c` with the block that took the record.
pub proof fn lemma_created_slots(
    disk: Seq<Seq<u8>>,
    dir: u32,
    c: Seq<u32>,
    kind: FileType,
    name: Seq<u8>,
)
    requires
        disk_wf(disk),
        dir_chain(disk, dir, c),
        can_create(disk, dir, name),
    ensures
        dir_slots(created(disk, dir, kind, name), dir) == dir_slots(disk, dir).push(
            new_slot(disk, dir, kind, name),
        ),
        new_slot(disk, dir, kind, name).addr == created_addr(disk, dir, name),
        created_addr(disk, dir, name) != 0,
        disk_wf(created(disk, dir, kind, name)),
        dir_chain(created(disk, dir, kind, name), dir, chain_after(disk, dir, c, name)),
        !chain_after(disk, dir, c, name).contains(created_addr(disk, dir, name)),
        is_data_addr(created_addr(disk, dir, name)),
        is_marked(created(disk, dir, kind, name), created_addr(disk, dir, name)),
        sector_of(created(disk, dir, kind, name), created_addr(disk, dir, name)) == zero_sector(),
{
    let after = created(disk, dir, kind, name);
    let t = c.last();
    let s = sector_of(disk, t);
    let p = payload(s);
    let off = scan_end(p, 0);
    lemma_tail(disk, c, MAX_HOPS as nat);
    lemma_dir_slots(disk, c);
    lemma_scan_end(p, 0);
    lemma_first_free_from(disk, 0);
    let a1 = first_free(disk)->0;
    lemma_mark(disk, a1, true, a1);
    let d1 = alloc_block(disk, a1);
    assert(disk_wf(d1));
    assert(is_data_addr(t));
    assert(is_marked(disk, t));
    let head = c.drop_last();
    assert(c =~= head + seq![t]);
    lemma_slots_along_add(disk, head, seq![t]);
    lemma_slots_along_add(after, head, seq![t]);
    assert(slots_along(disk, seq![t]) =~= block_slots(t, p, 0)) by {
        assert(seq![t].skip(1).len() == 0);
        assert(slots_along(disk, seq![t].skip(1)) =~= Seq::<Slot>::empty());
    }
    if tail_has_room(disk, dir, name) {
        let image = entry_image(kind, a1, 0, name);
        let s2 = splice(s, 4 + off, image);
        assert(after == disk_put(d1, t, s2));
        assert forall|x: u32| x != t && x != a1 && !is_bitmap_addr(x) implies #[trigger] sector_of(
            after,
            x,
        ) == sector_of(disk, x) by {}
        assert(sector_of(after, t) == s2);
        assert(payload(s2) =~= splice(p, off, image));
        assert(next_of(s2) == next_of(s));
        assert forall|i: int| 0 <= i < head.len() implies payload(
            sector_of(after, #[trigger] head[i]),
        ) == payload(sector_of(disk, head[i])) by {
            assert(head[i] == c[i]);
            assert(is_marked(disk, c[i]));
        }
        lemma_slots_along_same(disk, after, head);
        assert(is_path(after, c)) by {
            assert forall|i: int| 0 <= i < c.len() - 1 implies #[trigger] linked(after, c, i) by {
                assert(linked(disk, c, i));
                assert(is_marked(disk, c[i]));
            }
        }
        lemma_dir_slots(after, c);
        lemma_block_slots_push(t, p, payload(s2), 0, kind, a1, 0, name);
        assert(slots_along(after, seq![t]) =~= block_slots(t, payload(s2), 0)) by {
            assert(seq![t].skip(1).len() == 0);
            assert(slots_along(after, seq![t].skip(1)) =~= Seq::<Slot>::empty());
        }
        assert(dir_slots(after, dir) =~= dir_slots(disk, dir).push(
            new_slot(disk, dir, kind, name),
        ));
        assert forall|x: u32| is_marked(after, x) == (x == a1 || is_marked(disk, x)) by {
            lemma_mark(disk, a1, true, x);
        }
        assert(all_marked(after, c)) by {
            assert forall|i: int| 0 <= i < c.len() implies is_marked(after, #[trigger] c[i]) by {
                assert(is_marked(disk, c[i]));
            }
        }
        assert(!c.contains(a1)) by {
            if c.contains(a1) {
                let i = choose|i: int| 0 <= i < c.len() && c[i] == a1;
                assert(is_marked(disk, c[i]));
            }
        }
        assert(sector_of(after, a1) == zero_sector());
    } else {
        lemma_first_free_from(disk, (a1 - DATA_ADDR_OFFSET + 1) as nat);
        let a2 = second_free(disk)->0;
        let image = entry_image(kind, a2, 0, name);
        let s2 = put_be32(s, 0, a1);
        let linked_disk = disk_put(d1, t, s2);
        assert(disk_wf(linked_disk));
        lemma_mark(linked_disk, a2, true, a2);
        let d3 = alloc_block(linked_disk, a2);
        let fresh = splice(zero_sector(), 4, image);
        assert(after == disk_put(d3, a1, fresh));
        assert forall|x: u32| x != t && x != a1 && x != a2 && !is_bitmap_addr(x) implies #[trigger] sector_of(
            after,
            x,
        ) == sector_of(disk, x) by {}
        assert(sector_of(after, t) == s2);
        assert(sector_of(after, a1) == fresh);
        lemma_be32_put(s, 0, a1);
        assert(payload(s2) =~= p);
        assert(next_of(fresh) == 0);
        let zero_payload = payload(zero_sector());
        assert(payload(fresh) =~= splice(zero_payload, 0, image));
        assert(scan_end(zero_payload, 0) == 0);
        lemma_block_slots_push(a1, zero_payload, payload(fresh), 0, kind, a2, 0, name);
        assert(block_slots(a1, zero_payload, 0) =~= Seq::<Slot>::empty());
        let longer = c.push(a1);
        assert forall|i: int| 0 <= i < c.len() implies payload(sector_of(after, #[trigger] c[i]))
            == payload(sector_of(disk, c[i])) by {
            assert(is_marked(disk, c[i]));
        }
        lemma_slots_along_same(disk, after, c);
        assert(is_path(after, longer)) by {
            assert forall|i: int| 0 <= i < longer.len() implies is_data_addr(
                #[trigger] longer[i],
            ) by {
                if i < c.len() {
                    assert(longer[i] == c[i]);
                }
            }
            assert forall|i: int| 0 <= i < longer.len() - 1 implies #[trigger] linked(
                after,
                longer,
                i,
            ) by {
                assert(longer[i] == c[i]);
                assert(is_marked(disk, c[i]));
                if i < c.len() - 1 {
                    assert(linked(disk, c, i));
                    assert(longer[i + 1] == c[i + 1]);
                }
            }
            assert forall|i: int, j: int| 0 <= i < j < longer.len() implies longer[i]
                != longer[j] by {
                assert(longer[i] == c[i]);
                assert(is_marked(disk, c[i]));
                if j < c.len() {
                    assert(longer[j] == c[j]);
                }
            }
        }
        lemma_dir_slots(after, longer);
        assert(longer =~= c + seq![a1]);
        lemma_slots_along_add(after, c, seq![a1]);
        assert(slots_along(after, seq![a1]) =~= block_slots(a1, payload(fresh), 0)) by {
            assert(seq![a1].skip(1).len() == 0);
            assert(slots_along(after, seq![a1].skip(1)) =~= Seq::<Slot>::empty());
        }
        assert(dir_slots(after, dir) =~= dir_slots(disk, dir).push(
            new_slot(disk, dir, kind, name),
        ));
        assert forall|x: u32| is_marked(after, x) == (x == a1 || x == a2 || is_marked(disk, x)) by {
            lemma_mark(disk, a1, true, x);
            lemma_mark(linked_disk, a2, true, x);
            assert(is_marked(linked_disk, x) == is_marked(with_mark(disk, a1, true), x));
            assert(is_marked(after, x) == is_marked(with_mark(linked_disk, a2, true), x));
        }
        assert(all_marked(after, longer)) by {
            assert forall|i: int| 0 <= i < longer.len() implies is_marked(
                after,
                #[trigger] longer[i],
            ) by {
                if i < c.len() {
                    assert(longer[i] == c[i]);
                    assert(is_marked(disk, c[i]));
                }
            }
        }
        assert(!longer.contains(a2)) by {
            if longer.contains(a2) {
                let i = choose|i: int| 0 <= i < longer.len() && longer[i] == a2;
                if i < c.len() {
                    assert(longer[i] == c[i]);
                    assert(is_marked(disk, c[i]));
                }
            }
        }
        lemma_data_blocks_bound(longer);
        assert(sector_of(after, a2) == zero_sector());
        assert(longer.last() == a1);
        assert(rest_is_zero(payload(sector_of(after, longer.last()))));
    }
}

/// After an entry is added to a directory in good order, a lookup of its
/// name finds it, with the kind it was made with, the address of its
/// content block and size 0; and a lookup of any other name ends as it did
/// before.
pub proof fn theorem_create_then_find(
    disk: Seq<Seq<u8>>,
    dir: u32,
    kind: FileType,
    name: Seq<u8>,
    other: Seq<u8>,
)
    requires
        dir_wf(disk, dir),
        can_create(disk, dir, name),
    ensures
        ({
            let after = dir_slots(created(disk, dir, kind, name), dir);
            let k = find_index(after, name);
            &&& 0 <= k < after.len()
            &&& after[k].kind == kind
            &&& after[k].addr == created_addr(disk, dir, name)
            &&& after[k].addr != 0
            &&& after[k].size == 0
            &&& other != name ==> same_finding(dir_slots(disk, dir), after, other)
            &&& names_unique(after)
        }),
{
    let c = choose|c: Seq<u32>| dir_chain(disk, dir, c);
    lemma_created_slots(disk, dir, c, kind, name);
    lemma_find_after_push(dir_slots(disk, dir), new_slot(disk, dir, kind, name), other);
}


/// Marking the blocks of a chain free writes to the bitmap's blocks and to
/// no other.
pub proof fn lemma_free_chain_frame(disk: Seq<Seq<u8>>, addr: u32, hops: nat)
    requires
        disk_wf(disk),
    ensures
        disk_wf(free_chain(disk, addr, hops)),
        forall|x: u32|
            !is_bitmap_addr(x) ==> #[trigger] sector_of(free_chain(disk, addr, hops), x) == sector_of(
                disk,
                x,
            ),
    decreases hops,
{
    let next = next_of(sector_of(disk, addr));
    let freed = with_mark(disk, addr, false);
    if is_data_addr(addr) {
        lemma_mark(disk, addr, false, addr);
    }
    if !(next == 0 || hops == 0) {
        lemma_free_chain_frame(freed, next, (hops - 1) as nat);
    }
}

/// The disk with `value` written over the address of a record (`field` 1)
/// or over its size (`field` 5).
pub open spec fn field_put(disk: Seq<Seq<u8>>, slot: Slot, field: int, value: u32) -> Seq<
    Seq<u8>,
> {
    disk_put(
        disk,
        slot.block,
        put_be32(sector_of(disk, slot.block), 4 + slot.offset + field, value),
    )
}

/// A number written into the payload of a sector leaves the sector's link
/// and the rest of its payload as they were.
pub proof fn lemma_put_in_payload(s: Seq<u8>, at: int, value: u32)
    requires
        s.len() == 512,
        0 <= at,
        at + 4 <= 508,
    ensures
        put_be32(s, 4 + at, value).len() == 512,
        next_of(put_be32(s, 4 + at, value)) == next_of(s),
        be32(payload(put_be32(s, 4 + at, value)), at) == value,
        forall|j: int|
            0 <= j < 508 && !(at <= j < at + 4) ==> payload(put_be32(s, 4 + at, value))[j]
                == payload(s)[j],
{
    let s2 = put_be32(s, 4 + at, value);
    assert(payload(s2) =~= put_be32(payload(s), at, value));
    lemma_be32_put(payload(s), at, value);
}

/// Writing over the address or the size of a record of a directory in good
/// order changes that field of that record and nothing else of what the
/// directory holds, and leaves the directory's chain in good order.
pub proof fn lemma_field_put(
    disk: Seq<Seq<u8>>,
    dir: u32,
    c: Seq<u32>,
    k: int,
    field: int,
    value: u32,
)
    requires
        disk_wf(disk),
        dir_chain(disk, dir, c),
        0 <= k < dir_slots(disk, dir).len(),
        field == 1 || field == 5,
    ensures
        ({
            let slot = dir_slots(disk, dir)[k];
            let after = field_put(disk, slot, field, value);
            &&& disk_wf(after)
            &&& dir_chain(after, dir, c)
            &&& c.contains(slot.block)
            &&& forall|x: u32| x != slot.block ==> sector_of(after, x) == sector_of(disk, x)
            &&& forall|j: int|
                0 <= j < dir_slots(disk, dir).len() && (#[trigger] dir_slots(disk, dir)[j]).block
                    == slot.block && dir_slots(disk, dir)[j].offset == slot.offset
                    ==> dir_slots(disk, dir)[j] == slot
            &&& dir_slots(after, dir).len() == dir_slots(disk, dir).len()
            &&& forall|j: int|
                0 <= j < dir_slots(disk, dir).len() ==> #[trigger] dir_slots(after, dir)[j]
                    == patched(
                    dir_slots(disk, dir)[j],
                    slot.block,
                    slot.offset,
                    if field == 1 {
                        value
                    } else {
                        slot.addr
                    },
                    if field == 5 {
                        value
                    } else {
                        slot.size
                    },
                )
        }),
{
    let slots = dir_slots(disk, dir);
    let slot = slots[k];
    let after = field_put(disk, slot, field, value);
    lemma_dir_slots(disk, c);
    lemma_slots_along_members(disk, c);
    let b = slot.block;
    let o = slot.offset;
    let m = choose|m: int| 0 <= m < c.len() && c[m] == b;
    assert(is_data_addr(c[m]));
    let s = sector_of(disk, b);
    let p = payload(s);
    let s2 = put_be32(s, 4 + o + field, value);
    let q = payload(s2);
    lemma_on_scan(p, 0, o);
    assert(slot == slot_at(b, p, o));
    lemma_put_in_payload(s, o + field, value);
    assert(sector_of(after, b) == s2);
    assert forall|x: u32| x != b implies sector_of(after, x) == sector_of(disk, x) by {}
    assert(disk_wf(after));
    assert(is_path(after, c)) by {
        assert forall|i: int| 0 <= i < c.len() - 1 implies #[trigger] linked(after, c, i) by {
            assert(linked(disk, c, i));
        }
    }
    assert(all_marked(after, c)) by {
        assert forall|i: int| 0 <= i < c.len() implies is_marked(after, #[trigger] c[i]) by {
            assert(is_marked(disk, c[i]));
            assert(is_data_addr(c[i]));
        }
    }
    lemma_block_slots_patched(b, p, q, 0, o);
    assert(rest_is_zero(payload(sector_of(after, c.last())))) by {
        assert(rest_is_zero(payload(sector_of(disk, c.last()))));
        if c.last() == b {
            assert forall|j: int| 0 <= j < 508 && scan_end(q, 0) <= j implies q[j] == 0 by {
                assert(q[j] == p[j]);
            }
        } else {
            assert(sector_of(after, c.last()) == sector_of(disk, c.last()));
        }
    }
    lemma_slots_along_patched(disk, after, c, b, o);
    lemma_dir_slots(after, c);
    assert(be32(q, o + 1) == (if field == 1 {
        value
    } else {
        slot.addr
    })) by {
        if field == 5 {
            assert(q[o + 1] == p[o + 1]);
            assert(q[o + 2] == p[o + 2]);
            assert(q[o + 3] == p[o + 3]);
            assert(q[o + 4] == p[o + 4]);
        }
    }
    assert(be32(q, o + 5) == (if field == 5 {
        value
    } else {
        slot.size
    })) by {
        if field == 1 {
            assert(q[o + 5] == p[o + 5]);
            assert(q[o + 6] == p[o + 6]);
            assert(q[o + 7] == p[o + 7]);
            assert(q[o + 8] == p[o + 8]);
        }
    }
}

/// After the entry named `name` of a directory in good order is deleted, a
/// lookup of that name finds nothing, and a lookup of any other name ends
/// as it did before.
pub proof fn theorem_delete_then_find(
    disk: Seq<Seq<u8>>,
    dir: u32,
    name: Seq<u8>,
    other: Seq<u8>,
)
    requires
        dir_wf(disk, dir),
        find_index(dir_slots(disk, dir), name) < dir_slots(disk, dir).len(),
    ensures
        ({
            let after = dir_slots(deleted(disk, dir, name), dir);
            &&& find_index(after, name) == after.len()
            &&& other != name ==> same_finding(dir_slots(disk, dir), after, other)
            &&& names_unique(after)
            &&& disk_wf(deleted(disk, dir, name))
        }),
{
    let c = choose|c: Seq<u32>| dir_chain(disk, dir, c);
    let slots = dir_slots(disk, dir);
    lemma_find_index(slots, name);
    lemma_find_index(slots, other);
    let k = find_index(slots, name);
    let slot = slots[k];
    lemma_field_put(disk, dir, c, k, 1, 0);
    let dead = field_put(disk, slot, 1, 0);
    lemma_free_chain_frame(dead, slot.addr, MAX_HOPS as nat);
    let gone = deleted(disk, dir, name);
    assert(gone == free_chain(dead, slot.addr, MAX_HOPS as nat));
    assert(is_path(gone, c)) by {
        assert forall|i: int| 0 <= i < c.len() - 1 implies #[trigger] linked(gone, c, i) by {
            assert(linked(dead, c, i));
            assert(is_data_addr(c[i]));
        }
    }
    assert forall|i: int| 0 <= i < c.len() implies payload(sector_of(gone, #[trigger] c[i]))
        == payload(sector_of(dead, c[i])) by {
        assert(is_data_addr(c[i]));
    }
    lemma_slots_along_same(dead, gone, c);
    lemma_dir_slots(gone, c);
    lemma_dir_slots(dead, c);
    let after = dir_slots(gone, dir);
    lemma_dir_slots(disk, c);
    lemma_slots_along_members(disk, c);
    assert(after.len() == slots.len());
    assert forall|j: int| 0 <= j < slots.len() implies #[trigger] after[j] == patched(
        slots[j],
        slot.block,
        slot.offset,
        0,
        slot.size,
    ) by {}
    assert forall|j: int| 0 <= j < slots.len() implies !((#[trigger] after[j]).addr != 0
        && after[j].name == name) by {
        if slots[j].block == slot.block && slots[j].offset == slot.offset {
        } else {
            if j != k && slots[j].addr != 0 && slots[j].name == name {
                if j < k {
                    assert(slots[j].name != slots[k].name);
                } else {
                    assert(slots[k].name != slots[j].name);
                }
            }
        }
    }
    lemma_find_index_is(after, name, after.len() as int);
    assert forall|j: int| 0 <= j < slots.len() implies ((#[trigger] after[j]).addr != 0
        && after[j].name == other <==> slots[j].addr != 0 && slots[j].name == other) || other
        == name by {
        if slots[j].block == slot.block && slots[j].offset == slot.offset {
            assert(slots[j] == slots[k]);
        }
    }
    if other != name {
        let f = find_index(slots, other);
        assert forall|j: int| 0 <= j < f implies !((#[trigger] after[j]).addr != 0
            && after[j].name == other) by {
            assert(!(slots[j].addr != 0 && slots[j].name == other));
        }
        if f < slots.len() {
            assert(after[f].addr != 0 && after[f].name == other);
            assert(after[f] == slots[f]);
        }
        lemma_find_index_is(after, other, f);
    }
    assert(names_unique(after)) by {
        assert forall|i: int, j: int|
            0 <= i < j < after.len() && after[i].addr != 0 && after[j].addr != 0 implies after[i].name
            != after[j].name by {
            assert(after[i] == slots[i]);
            assert(after[j] == slots[j]);
        }
    }
}


/// On a disk with no free block no entry can be added: `create_entry`
/// then returns `None` and writes nothing.
pub proof fn theorem_full_disk_create(disk: Seq<Seq<u8>>, dir: u32, name: Seq<u8>)
    requires
        first_free(disk) is None,
    ensures
        !can_create(disk, dir, name),
{
}


/// A data block of zeros that is marked used is a directory in good order,
/// with no entry.
pub proof fn lemma_empty_dir(disk: Seq<Seq<u8>>, dir: u32)
    requires
        disk_wf(disk),
        is_data_addr(dir),
        is_marked(disk, dir),
        sector_of(disk, dir) == zero_sector(),
    ensures
        dir_chain(disk, dir, seq![dir]),
        dir_wf(disk, dir),
        dir_slots(disk, dir) == Seq::<Slot>::empty(),
{
    let c = seq![dir];
    let p = payload(zero_sector());
    assert(scan_end(p, 0) == 0);
    assert(is_path(disk, c));
    assert(dir_chain(disk, dir, c));
    lemma_dir_slots(disk, c);
    assert(c.skip(1).len() == 0);
    assert(slots_along(disk, c.skip(1)) =~= Seq::<Slot>::empty());
    assert(block_slots(dir, p, 0) =~= Seq::<Slot>::empty());
    assert(dir_slots(disk, dir) =~= Seq::<Slot>::empty());
}

/// Formatting a disk whose root block holds zeros leaves the root
/// directory in good order, and empty.
pub proof fn theorem_format_blank(disk: Seq<Seq<u8>>)
    requires
        disk_wf(disk),
        sector_of(disk, DATA_ADDR_OFFSET) == zero_sector(),
    ensures
        dir_wf(formatted(disk), DATA_ADDR_OFFSET),
        dir_slots(formatted(disk), DATA_ADDR_OFFSET) == Seq::<Slot>::empty(),
{
    let signed = disk_put(
        disk,
        crate::parva_fs::layout::SUPERBLOCK_ADDR,
        crate::parva_fs::super_block::signature_sector(),
    );
    assert(disk_wf(signed));
    lemma_mark(signed, DATA_ADDR_OFFSET, true, DATA_ADDR_OFFSET);
    lemma_empty_dir(formatted(disk), DATA_ADDR_OFFSET);
}

/// A directory in good order is in good order after an entry is added to
/// it; and where the entry is a directory, that one is in good order too,
/// and empty.
pub proof fn theorem_create_keeps_order(
    disk: Seq<Seq<u8>>,
    dir: u32,
    kind: FileType,
    name: Seq<u8>,
)
    requires
        dir_wf(disk, dir),
        can_create(disk, dir, name),
    ensures
        dir_wf(created(disk, dir, kind, name), dir),
        dir_wf(created(disk, dir, kind, name), created_addr(disk, dir, name)),
        dir_slots(created(disk, dir, kind, name), created_addr(disk, dir, name)) == Seq::<
            Slot,
        >::empty(),
{
    let c = choose|c: Seq<u32>| dir_chain(disk, dir, c);
    lemma_created_slots(disk, dir, c, kind, name);
    lemma_find_after_push(dir_slots(disk, dir), new_slot(disk, dir, kind, name), name);
    lemma_empty_dir(created(disk, dir, kind, name), created_addr(disk, dir, name));
}


/// A directory in good order stays as it is, chain and records, on a disk
/// that holds in the blocks of its chain what the first disk holds there
/// and marks them used.
pub proof fn lemma_dir_kept(disk: Seq<Seq<u8>>, after: Seq<Seq<u8>>, dir: u32, c: Seq<u32>)
    requires
        dir_chain(disk, dir, c),
        forall|i: int|
            0 <= i < c.len() ==> sector_of(after, #[trigger] c[i]) == sector_of(disk, c[i])
                && is_marked(after, c[i]),
    ensures
        dir_chain(after, dir, c),
        dir_slots(after, dir) == dir_slots(disk, dir),
{
    assert(is_path(after, c)) by {
        assert forall|i: int| 0 <= i < c.len() - 1 implies #[trigger] linked(after, c, i) by {
            assert(linked(disk, c, i));
            assert(sector_of(after, c[i]) == sector_of(disk, c[i]));
        }
        assert(sector_of(after, c[c.len() - 1]) == sector_of(disk, c[c.len() - 1]));
    }
    assert(sector_of(after, c[c.len() - 1]) == sector_of(disk, c[c.len() - 1]));
    lemma_dir_slots(disk, c);
    lemma_dir_slots(after, c);
    assert forall|i: int| 0 <= i < c.len() implies payload(sector_of(after, #[trigger] c[i]))
        == payload(sector_of(disk, c[i])) by {
        assert(sector_of(after, c[i]) == sector_of(disk, c[i]));
    }
    lemma_slots_along_same(disk, after, c);
}

/// Adding an entry to a directory in good order writes only to the
/// bitmap, to blocks of the directory's chain and to blocks that were
/// free, and leaves every block that was marked used marked so.
pub proof fn lemma_create_frame(
    disk: Seq<Seq<u8>>,
    dir: u32,
    c: Seq<u32>,
    kind: FileType,
    name: Seq<u8>,
)
    requires
        disk_wf(disk),
        dir_chain(disk, dir, c),
        can_create(disk, dir, name),
    ensures
        forall|x: u32|
            !is_bitmap_addr(x) && is_marked(disk, x) && !c.contains(x) ==> #[trigger] sector_of(
                created(disk, dir, kind, name),
                x,
            ) == sector_of(disk, x),
        forall|x: u32| is_marked(disk, x) ==> is_marked(created(disk, dir, kind, name), x),
{
    let after = created(disk, dir, kind, name);
    let t = c.last();
    lemma_tail(disk, c, MAX_HOPS as nat);
    lemma_first_free_from(disk, 0);
    let a1 = first_free(disk)->0;
    lemma_mark(disk, a1, true, a1);
    let d1 = alloc_block(disk, a1);
    assert(c.contains(t));
    assert(is_data_addr(t));
    if tail_has_room(disk, dir, name) {
        assert forall|x: u32| is_marked(disk, x) implies is_marked(after, x) by {
            lemma_mark(disk, a1, true, x);
        }
    } else {
        lemma_first_free_from(disk, (a1 - DATA_ADDR_OFFSET + 1) as nat);
        let a2 = second_free(disk)->0;
        let linked_disk = disk_put(d1, t, put_be32(sector_of(disk, t), 0, a1));
        assert(disk_wf(linked_disk));
        lemma_mark(linked_disk, a2, true, a2);
        assert forall|x: u32| is_marked(disk, x) implies is_marked(after, x) by {
            lemma_mark(disk, a1, true, x);
            lemma_mark(linked_disk, a2, true, x);
            assert(is_marked(linked_disk, x) == is_marked(with_mark(disk, a1, true), x));
            assert(is_marked(after, x) == is_marked(with_mark(linked_disk, a2, true), x));
        }
    }
}

/// Adding an entry to one directory in good order leaves another, whose
/// chain shares no block with the first one's, as it is.
pub proof fn theorem_create_keeps_others(
    disk: Seq<Seq<u8>>,
    dir: u32,
    c: Seq<u32>,
    kind: FileType,
    name: Seq<u8>,
    other: u32,
    oc: Seq<u32>,
)
    requires
        disk_wf(disk),
        dir_chain(disk, dir, c),
        can_create(disk, dir, name),
        dir_chain(disk, other, oc),
        forall|i: int, j: int| 0 <= i < c.len() && 0 <= j < oc.len() ==> c[i] != oc[j],
    ensures
        dir_chain(created(disk, dir, kind, name), other, oc),
        dir_slots(created(disk, dir, kind, name), other) == dir_slots(disk, other),
{
    let after = created(disk, dir, kind, name);
    lemma_create_frame(disk, dir, c, kind, name);
    assert forall|j: int| 0 <= j < oc.len() implies sector_of(after, #[trigger] oc[j])
        == sector_of(disk, oc[j]) && is_marked(after, oc[j]) by {
        assert(is_marked(disk, oc[j]));
        assert(is_data_addr(oc[j]));
        if c.contains(oc[j]) {
            let i = choose|i: int| 0 <= i < c.len() && c[i] == oc[j];
            assert(c[i] != oc[j]);
        }
    }
    lemma_dir_kept(disk, after, other, oc);
}

} // verus!
