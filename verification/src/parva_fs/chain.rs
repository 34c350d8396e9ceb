//! Chains of blocks in good order, and what the scans of a directory make
//! of them.

use crate::parva_fs::bitmap::is_marked;
use crate::parva_fs::block::{next_of, payload};
use crate::parva_fs::dir::{
    block_slots, chain_slots, dir_slots, entry_end, entry_image, entry_ok, kind_byte, kind_of,
    scan_end, slot_at, splice, tail_of, FileType, Slot,
};
use crate::parva_fs::layout::{
    be32, be_byte, is_data_addr, sector_of, DATA_ADDR_OFFSET, MAX_BLOCKS, MAX_HOPS,
};
use vstd::prelude::*;

verus! {

/// Block `i` of `c` names block `i + 1` as its successor.
pub open spec fn linked(disk: Seq<Seq<u8>>, c: Seq<u32>, i: int) -> bool {
    next_of(sector_of(disk, c[i])) == c[i + 1]
}

/// `c` is a chain on the disk: data blocks, each naming the next as its
/// successor and the last naming none, no block twice, and no more of them
/// than a scan reaches.
pub open spec fn is_path(disk: Seq<Seq<u8>>, c: Seq<u32>) -> bool {
    &&& 1 <= c.len() <= MAX_HOPS + 1
    &&& forall|i: int| 0 <= i < c.len() ==> is_data_addr(#[trigger] c[i])
    &&& forall|i: int| 0 <= i < c.len() - 1 ==> #[trigger] linked(disk, c, i)
    &&& next_of(sector_of(disk, c.last())) == 0
    &&& forall|i: int, j: int| 0 <= i < j < c.len() ==> c[i] != c[j]
}

/// Every block of `c` is marked used.
pub open spec fn all_marked(disk: Seq<Seq<u8>>, c: Seq<u32>) -> bool {
    forall|i: int| 0 <= i < c.len() ==> is_marked(disk, #[trigger] c[i])
}

/// The records of the blocks of `c`, block after block.
pub open spec fn slots_along(disk: Seq<Seq<u8>>, c: Seq<u32>) -> Seq<Slot>
    decreases c.len(),
{
    if c.len() == 0 {
        Seq::empty()
    } else {
        block_slots(c[0], payload(sector_of(disk, c[0])), 0) + slots_along(disk, c.skip(1))
    }
}

/// What is left of a chain without its first block is a chain.
pub proof fn lemma_path_rest(disk: Seq<Seq<u8>>, c: Seq<u32>)
    requires
        is_path(disk, c),
        c.len() >= 2,
    ensures
        is_path(disk, c.skip(1)),
        c.skip(1)[0] == next_of(sector_of(disk, c[0])),
{
    let r = c.skip(1);
    assert(linked(disk, c, 0));
    assert forall|i: int| 0 <= i < r.len() - 1 implies #[trigger] linked(disk, r, i) by {
        assert(linked(disk, c, i + 1));
    }
    assert(r.last() == c.last());
}

/// A scan that may follow as many blocks as a chain has passes the records
/// of all of them.
pub proof fn lemma_chain_slots(disk: Seq<Seq<u8>>, c: Seq<u32>, hops: nat)
    requires
        is_path(disk, c),
        hops >= c.len(),
    ensures
        chain_slots(disk, c[0], hops) == slots_along(disk, c),
    decreases c.len(),
{
    let rest = c.skip(1);
    assert(is_data_addr(c[0]));
    if c.len() == 1 {
        assert(rest.len() == 0);
        assert(slots_along(disk, rest) =~= Seq::<Slot>::empty());
        assert(chain_slots(disk, 0, (hops - 1) as nat) =~= Seq::<Slot>::empty());
    } else {
        lemma_path_rest(disk, c);
        lemma_chain_slots(disk, rest, (hops - 1) as nat);
    }
}

/// The records of a directory are those of the blocks of its chain.
pub proof fn lemma_dir_slots(disk: Seq<Seq<u8>>, c: Seq<u32>)
    requires
        is_path(disk, c),
    ensures
        dir_slots(disk, c[0]) == slots_along(disk, c),
{
    let rest = c.skip(1);
    if c.len() == 1 {
        assert(rest.len() == 0);
        assert(slots_along(disk, rest) =~= Seq::<Slot>::empty());
        assert(chain_slots(disk, 0, MAX_HOPS as nat) =~= Seq::<Slot>::empty());
    } else {
        lemma_path_rest(disk, c);
        lemma_chain_slots(disk, rest, MAX_HOPS as nat);
    }
}

/// A walk that may follow as many successors as a chain has ends at the
/// chain's last block.
pub proof fn lemma_tail(disk: Seq<Seq<u8>>, c: Seq<u32>, hops: nat)
    requires
        is_path(disk, c),
        hops >= c.len() - 1,
    ensures
        tail_of(disk, c[0], hops) == c.last(),
    decreases c.len(),
{
    if c.len() >= 2 {
        lemma_path_rest(disk, c);
        lemma_tail(disk, c.skip(1), (hops - 1) as nat);
    }
}

/// The records of two runs of blocks, one after the other.
pub proof fn lemma_slots_along_add(disk: Seq<Seq<u8>>, a: Seq<u32>, b: Seq<u32>)
    ensures
        slots_along(disk, a + b) == slots_along(disk, a) + slots_along(disk, b),
    decreases a.len(),
{
    if a.len() == 0 {
        assert(a + b =~= b);
        assert(slots_along(disk, a) + slots_along(disk, b) =~= slots_along(disk, b));
    } else {
        lemma_slots_along_add(disk, a.skip(1), b);
        assert((a + b).skip(1) =~= a.skip(1) + b);
        assert((a + b)[0] == a[0]);
        assert(slots_along(disk, a + b) =~= slots_along(disk, a) + slots_along(disk, b));
    }
}

/// Blocks with the same payloads on two disks hold the same records.
pub proof fn lemma_slots_along_same(disk: Seq<Seq<u8>>, other: Seq<Seq<u8>>, c: Seq<u32>)
    requires
        forall|i: int|
            0 <= i < c.len() ==> payload(sector_of(other, #[trigger] c[i])) == payload(
                sector_of(disk, c[i]),
            ),
    ensures
        slots_along(other, c) == slots_along(disk, c),
    decreases c.len(),
{
    if c.len() > 0 {
        let r = c.skip(1);
        assert forall|i: int| 0 <= i < r.len() implies payload(sector_of(other, #[trigger] r[i]))
            == payload(sector_of(disk, r[i])) by {
            assert(r[i] == c[i + 1]);
        }
        lemma_slots_along_same(disk, other, r);
        assert(payload(sector_of(other, c[0])) == payload(sector_of(disk, c[0])));
    }
}

/// The scan of a block never goes backwards.
pub proof fn lemma_scan_end(p: Seq<u8>, at: int)
    ensures
        at <= scan_end(p, at),
        !entry_ok(p, scan_end(p, at)),
    decreases 508 - at,
{
    if entry_ok(p, at) {
        lemma_scan_end(p, entry_end(p, at));
    }
}

/// Two payloads that agree from `at` on hold the same records from there.
pub proof fn lemma_block_slots_same(block: u32, p: Seq<u8>, q: Seq<u8>, at: int)
    requires
        p.len() == 508,
        q.len() == 508,
        forall|j: int| at <= j < 508 ==> p[j] == q[j],
    ensures
        block_slots(block, p, at) == block_slots(block, q, at),
        scan_end(p, at) == scan_end(q, at),
    decreases 508 - at,
{
    if entry_ok(p, at) {
        assert(entry_ok(q, at));
        assert(p.subrange(at + 10, entry_end(p, at)) =~= q.subrange(at + 10, entry_end(q, at)));
        assert(slot_at(block, p, at) == slot_at(block, q, at));
        lemma_block_slots_same(block, p, q, entry_end(p, at));
    } else {
        assert(!entry_ok(q, at)) by {
            if 0 <= at && at + 10 < 508 {
                assert(p[at] == q[at]);
                assert(p[at + 9] == q[at + 9]);
            }
        }
    }
}

/// A record written where the scan of a block stops, with zeros after it,
/// is one more record at the end of the block's records.
pub proof fn lemma_block_slots_push(
    block: u32,
    p: Seq<u8>,
    q: Seq<u8>,
    at: int,
    kind: FileType,
    addr: u32,
    size: u32,
    name: Seq<u8>,
)
    requires
        p.len() == 508,
        0 <= at,
        1 <= name.len() <= 255,
        scan_end(p, at) + 10 + name.len() <= 508,
        forall|j: int| 0 <= j < 508 && scan_end(p, at) <= j ==> p[j] == 0,
        q == splice(p, scan_end(p, at), entry_image(kind, addr, size, name)),
    ensures
        block_slots(block, q, at) == block_slots(block, p, at).push(
            Slot { block, offset: scan_end(p, at), kind, addr, size, name },
        ),
        scan_end(q, at) == scan_end(p, at) + 10 + name.len(),
        forall|j: int| 0 <= j < 508 && scan_end(q, at) <= j ==> q[j] == 0,
    decreases 508 - at,
{
    let off = scan_end(p, at);
    let image = entry_image(kind, addr, size, name);
    lemma_scan_end(p, at);
    assert(image.len() == 10 + name.len());
    if entry_ok(p, at) {
        let end = entry_end(p, at);
        lemma_scan_end(p, end);
        assert(entry_ok(q, at));
        assert(p.subrange(at + 10, end) =~= q.subrange(at + 10, end));
        assert(slot_at(block, p, at) == slot_at(block, q, at));
        lemma_block_slots_push(block, p, q, end, kind, addr, size, name);
        assert(block_slots(block, q, at) =~= block_slots(block, p, at).push(
            Slot { block, offset: off, kind, addr, size, name },
        ));
    } else {
        assert(off == at);
        let end = at + 10 + name.len();
        assert(q[at] == kind_byte(kind));
        assert(q[at + 9] == name.len() as u8);
        assert(entry_ok(q, at));
        assert(entry_end(q, at) == end);
        assert(q.subrange(at + 10, end) =~= name);
        assert(be32(q, at + 1) == addr) by {
            assert(q[at + 1] == be_byte(addr, 0));
            assert(q[at + 2] == be_byte(addr, 1));
            assert(q[at + 3] == be_byte(addr, 2));
            assert(q[at + 4] == be_byte(addr, 3));
        }
        assert(be32(q, at + 5) == size) by {
            assert(q[at + 5] == be_byte(size, 0));
            assert(q[at + 6] == be_byte(size, 1));
            assert(q[at + 7] == be_byte(size, 2));
            assert(q[at + 8] == be_byte(size, 3));
        }
        assert(kind_of(kind_byte(kind)) == kind);
        assert(slot_at(block, q, at) == Slot { block, offset: off, kind, addr, size, name });
        assert(!entry_ok(q, end)) by {
            if end + 10 < 508 {
                assert(q[end + 9] == p[end + 9]);
            }
        }
        assert(block_slots(block, q, end) =~= Seq::<Slot>::empty());
        assert(scan_end(q, end) == end);
        assert(scan_end(q, at) == end);
        assert(block_slots(block, p, at) =~= Seq::<Slot>::empty());
        assert(block_slots(block, q, at) =~= block_slots(block, p, at).push(
            Slot { block, offset: off, kind, addr, size, name },
        ));
    }
}


/// Whether the scan of the payload `p`, started at `at`, comes to a record
/// at `o`.
pub open spec fn on_scan(p: Seq<u8>, at: int, o: int) -> bool
    decreases 508 - at,
{
    entry_ok(p, at) && (at == o || on_scan(p, entry_end(p, at), o))
}

/// `slot` with its address and size replaced, where it is the record at
/// `offset` of `block`; any other record as it is.
pub open spec fn patched(slot: Slot, block: u32, offset: int, addr: u32, size: u32) -> Slot {
    if slot.block == block && slot.offset == offset {
        Slot { addr, size, ..slot }
    } else {
        slot
    }
}

/// A record that a scan comes to lies at or after the scan's start.
pub proof fn lemma_on_scan(p: Seq<u8>, at: int, o: int)
    requires
        on_scan(p, at, o),
    ensures
        at <= o,
        entry_ok(p, o),
    decreases 508 - at,
{
    if at != o {
        lemma_on_scan(p, entry_end(p, at), o);
    }
}

/// Each record that the scan of a block hands out lies in that block, at an
/// offset that the scan comes to, and is what the bytes there say.
pub proof fn lemma_block_slots_members(block: u32, p: Seq<u8>, at: int)
    ensures
        forall|j: int|
            0 <= j < block_slots(block, p, at).len() ==> {
                let slot = #[trigger] block_slots(block, p, at)[j];
                &&& slot.block == block
                &&& at <= slot.offset
                &&& on_scan(p, at, slot.offset)
                &&& slot == slot_at(block, p, slot.offset)
            },
    decreases 508 - at,
{
    if entry_ok(p, at) {
        let rest = block_slots(block, p, entry_end(p, at));
        lemma_block_slots_members(block, p, entry_end(p, at));
        assert forall|j: int| 0 <= j < block_slots(block, p, at).len() implies {
            let slot = #[trigger] block_slots(block, p, at)[j];
            &&& slot.block == block
            &&& at <= slot.offset
            &&& on_scan(p, at, slot.offset)
            &&& slot == slot_at(block, p, slot.offset)
        } by {
            if j > 0 {
                assert(block_slots(block, p, at)[j] == rest[j - 1]);
            }
        }
    }
}

/// Each record of a run of blocks lies in one of them, at an offset that
/// the scan of that block comes to, and is what the bytes there say.
pub proof fn lemma_slots_along_members(disk: Seq<Seq<u8>>, c: Seq<u32>)
    ensures
        forall|j: int|
            0 <= j < slots_along(disk, c).len() ==> {
                let slot = #[trigger] slots_along(disk, c)[j];
                &&& c.contains(slot.block)
                &&& on_scan(payload(sector_of(disk, slot.block)), 0, slot.offset)
                &&& slot == slot_at(
                    slot.block,
                    payload(sector_of(disk, slot.block)),
                    slot.offset,
                )
            },
    decreases c.len(),
{
    if c.len() > 0 {
        let first = block_slots(c[0], payload(sector_of(disk, c[0])), 0);
        let rest = slots_along(disk, c.skip(1));
        lemma_block_slots_members(c[0], payload(sector_of(disk, c[0])), 0);
        lemma_slots_along_members(disk, c.skip(1));
        assert forall|j: int| 0 <= j < slots_along(disk, c).len() implies {
            let slot = #[trigger] slots_along(disk, c)[j];
            &&& c.contains(slot.block)
            &&& on_scan(payload(sector_of(disk, slot.block)), 0, slot.offset)
            &&& slot == slot_at(slot.block, payload(sector_of(disk, slot.block)), slot.offset)
        } by {
            let slot = slots_along(disk, c)[j];
            if j < first.len() {
                assert(slot == first[j]);
                assert(c[0] == slot.block);
            } else {
                assert(slot == rest[j - first.len()]);
                let i = choose|i: int| 0 <= i < c.skip(1).len() && c.skip(1)[i] == slot.block;
                assert(c[i + 1] == slot.block);
            }
        }
    }
}

/// Bytes changed only within the address and size of the record at `o`
/// change that record's address and size and nothing else of what the scan
/// of the block hands out.
pub proof fn lemma_block_slots_patched(block: u32, p: Seq<u8>, q: Seq<u8>, at: int, o: int)
    requires
        p.len() == 508,
        q.len() == 508,
        on_scan(p, at, o),
        0 <= at,
        forall|j: int| 0 <= j < 508 && !(o + 1 <= j < o + 9) ==> p[j] == q[j],
    ensures
        block_slots(block, q, at) == block_slots(block, p, at).map_values(
            |s: Slot| patched(s, block, o, be32(q, o + 1), be32(q, o + 5)),
        ),
        scan_end(q, at) == scan_end(p, at),
        o + 10 < scan_end(p, at),
    decreases 508 - at,
{
    let f = |s: Slot| patched(s, block, o, be32(q, o + 1), be32(q, o + 5));
    let end = entry_end(p, at);
    lemma_scan_end(p, end);
    lemma_on_scan(p, at, o);
    if at == o {
        assert(entry_ok(q, at));
        assert(p.subrange(at + 10, end) =~= q.subrange(at + 10, end));
        assert(slot_at(block, q, at) == f(slot_at(block, p, at)));
        lemma_block_slots_same(block, p, q, end);
        lemma_block_slots_members(block, p, end);
        assert(block_slots(block, p, end).map_values(f) =~= block_slots(block, p, end));
        assert(block_slots(block, q, at) =~= block_slots(block, p, at).map_values(f));
    } else {
        lemma_on_scan(p, end, o);
        assert(entry_ok(q, at));
        assert(p.subrange(at + 10, end) =~= q.subrange(at + 10, end));
        assert(slot_at(block, q, at) == slot_at(block, p, at));
        lemma_block_slots_patched(block, p, q, end, o);
        assert(block_slots(block, q, at) =~= block_slots(block, p, at).map_values(f));
    }
}

/// A block rewritten only within the address and size of one of its
/// records changes that record's address and size and nothing else of the
/// records of a chain that holds the block.
pub proof fn lemma_slots_along_patched(
    disk: Seq<Seq<u8>>,
    other: Seq<Seq<u8>>,
    c: Seq<u32>,
    block: u32,
    o: int,
)
    requires
        forall|i: int, j: int| 0 <= i < j < c.len() ==> c[i] != c[j],
        forall|i: int|
            0 <= i < c.len() && c[i] != block ==> payload(sector_of(other, #[trigger] c[i]))
                == payload(sector_of(disk, c[i])),
        sector_of(disk, block).len() == 512,
        sector_of(other, block).len() == 512,
        on_scan(payload(sector_of(disk, block)), 0, o),
        forall|j: int|
            0 <= j < 508 && !(o + 1 <= j < o + 9) ==> payload(sector_of(disk, block))[j]
                == payload(sector_of(other, block))[j],
    ensures
        slots_along(other, c) == slots_along(disk, c).map_values(
            |s: Slot|
                patched(
                    s,
                    block,
                    o,
                    be32(payload(sector_of(other, block)), o + 1),
                    be32(payload(sector_of(other, block)), o + 5),
                ),
        ),
    decreases c.len(),
{
    let q = payload(sector_of(other, block));
    let f = |s: Slot| patched(s, block, o, be32(q, o + 1), be32(q, o + 5));
    if c.len() > 0 {
        let r = c.skip(1);
        assert forall|i: int| 0 <= i < r.len() && r[i] != block implies payload(
            sector_of(other, #[trigger] r[i]),
        ) == payload(sector_of(disk, r[i])) by {
            assert(r[i] == c[i + 1]);
        }
        assert forall|i: int, j: int| 0 <= i < j < r.len() implies r[i] != r[j] by {
            assert(r[i] == c[i + 1] && r[j] == c[j + 1]);
        }
        lemma_slots_along_patched(disk, other, r, block, o);
        let first = block_slots(c[0], payload(sector_of(disk, c[0])), 0);
        if c[0] == block {
            lemma_block_slots_patched(block, payload(sector_of(disk, block)), q, 0, o);
        } else {
            lemma_block_slots_members(c[0], payload(sector_of(disk, c[0])), 0);
            assert(first.map_values(f) =~= first);
        }
        assert(slots_along(other, c) =~= slots_along(disk, c).map_values(f));
    } else {
        assert(slots_along(other, c) =~= slots_along(disk, c).map_values(f));
    }
}


/// No run of data blocks without a block twice is longer than the data
/// region.
pub proof fn lemma_data_blocks_bound(c: Seq<u32>)
    requires
        forall|i: int| 0 <= i < c.len() ==> is_data_addr(#[trigger] c[i]),
        forall|i: int, j: int| 0 <= i < j < c.len() ==> c[i] != c[j],
    ensures
        c.len() <= MAX_BLOCKS,
{
    let s = Seq::new(c.len(), |i: int| c[i] as int);
    let all = vstd::set_lib::set_int_range(
        DATA_ADDR_OFFSET as int,
        DATA_ADDR_OFFSET + MAX_BLOCKS,
    );
    assert(s.no_duplicates()) by {
        assert forall|i: int, j: int| 0 <= i < s.len() && 0 <= j < s.len() && i != j implies s[i]
            != s[j] by {
            if i < j {
                assert(c[i] != c[j]);
            } else {
                assert(c[j] != c[i]);
            }
        }
    }
    s.unique_seq_to_set();
    vstd::set_lib::lemma_int_range(DATA_ADDR_OFFSET as int, DATA_ADDR_OFFSET + MAX_BLOCKS);
    assert(s.to_set().subset_of(all)) by {
        assert forall|x: int| s.to_set().contains(x) implies all.contains(x) by {
            let i = choose|i: int| 0 <= i < s.len() && s[i] == x;
            assert(is_data_addr(c[i]));
        }
    }
    vstd::set_lib::lemma_len_subset(s.to_set(), all);
}

} // verus!
