use parva_os::parva_fs::bitmap::BlockBitmap;
use parva_os::parva_fs::block::Block;
use parva_os::parva_fs::block_device::BlockDevice;
use parva_os::parva_fs::dir::{Dir, DirEntry, FileType};
use parva_os::parva_fs::file::File;
use parva_os::parva_fs::layout::{
    BITMAP_ADDR_OFFSET, BITMAP_BITS, BITMAP_BLOCKS, DATA_ADDR_OFFSET, MAX_BLOCKS, SECTOR_COUNT,
    SUPERBLOCK_ADDR,
};
use parva_os::parva_fs::mount::{init, is_mounted, mount, FileSystem};
use parva_os::parva_fs::super_block::SuperBlock;

fn formatted() -> BlockDevice {
    let mut fs = FileSystem::new();
    parva_os::parva_fs::mount::format(&mut fs, BlockDevice::new(0, 0));
    fs.unmount().expect("format mounts the device")
}

#[test]
fn layout_is_fixed() {
    assert_eq!(SUPERBLOCK_ADDR, 2048);
    assert_eq!(BITMAP_ADDR_OFFSET, 2050);
    assert_eq!(DATA_ADDR_OFFSET, 2562);
    assert_eq!(MAX_BLOCKS, 4096);
    assert_eq!(BITMAP_BITS, 4064);
    assert_eq!(BITMAP_BLOCKS, 2);
    assert_eq!(SECTOR_COUNT, 6658);
    assert_eq!(Dir::root().addr(), 2562);
}

#[test]
fn blank_device_reads_zeros() {
    let dev = BlockDevice::new(1, 0);
    assert_eq!(dev.bus(), 1);
    assert_eq!(dev.dsk(), 0);
    assert_eq!(dev.block_size(), 512);
    assert_eq!(dev.block_count(), 6658);
    let mut buf = [7u8; 512];
    dev.read(2562, &mut buf);
    assert_eq!(buf, [0u8; 512]);
}

#[test]
fn device_keeps_what_is_written() {
    let mut dev = BlockDevice::new(0, 1);
    let mut sector = [0u8; 512];
    sector[0] = 0xAA;
    sector[511] = 0x55;
    dev.write(3000, &sector);
    let mut buf = [0u8; 512];
    dev.read(3000, &mut buf);
    assert_eq!(buf, sector);
    dev.read(3001, &mut buf);
    assert_eq!(buf, [0u8; 512]);
}

#[test]
fn past_the_end_reads_zeros_and_drops_writes() {
    let mut dev = BlockDevice::new(0, 0);
    let sector = [9u8; 512];
    dev.write(SECTOR_COUNT, &sector);
    let mut buf = [1u8; 512];
    dev.read(SECTOR_COUNT, &mut buf);
    assert_eq!(buf, [0u8; 512]);
    assert_eq!(dev.block_count(), 6658);
}

#[test]
fn link_is_big_endian() {
    let mut block = Block::new(2600);
    assert_eq!(block.addr(), 2600);
    assert_eq!(block.next_addr(), 0);
    block.set_next(0x0102_0304);
    assert_eq!(&block.buf[0..4], &[1, 2, 3, 4]);
    assert_eq!(block.next_addr(), 0x0102_0304);
    block.set_next(0);
    assert_eq!(block.next_addr(), 0);
}

#[test]
fn payload_is_the_bytes_after_the_link() {
    let mut block = Block::new(2600);
    block.set_next(0xFFFF_FFFF);
    assert_eq!(block.data().len(), 508);
    {
        let data = block.data_mut();
        assert_eq!(data.len(), 508);
        data[0] = 0x11;
        data[507] = 0x22;
    }
    assert_eq!(block.buf[4], 0x11);
    assert_eq!(block.buf[511], 0x22);
    assert_eq!(block.next_addr(), 0xFFFF_FFFF);
    assert_eq!(block.data()[0], 0x11);
}

#[test]
fn next_follows_the_link() {
    let mut dev = BlockDevice::new(0, 0);
    let mut first = Block::new(2600);
    first.set_next(2700);
    first.write(&mut dev);
    let mut second = Block::new(2700);
    second.data_mut()[0] = 42;
    second.write(&mut dev);
    let read = Block::read(&dev, 2600);
    let next = read.next(&dev).expect("the link names a block");
    assert_eq!(next.addr(), 2700);
    assert_eq!(next.data()[0], 42);
    assert!(next.next(&dev).is_none());
}

#[test]
fn bitmap_index_arithmetic() {
    assert_eq!(BlockBitmap::block_index(DATA_ADDR_OFFSET), 2050);
    assert_eq!(BlockBitmap::block_index(DATA_ADDR_OFFSET + 4063), 2050);
    assert_eq!(BlockBitmap::block_index(DATA_ADDR_OFFSET + 4064), 2051);
    assert_eq!(BlockBitmap::block_index(DATA_ADDR_OFFSET + 4095), 2051);
    assert_eq!(BlockBitmap::buffer_index(DATA_ADDR_OFFSET + 4095), 31);
    assert_eq!(BlockBitmap::buffer_index(DATA_ADDR_OFFSET), 0);
    assert_eq!(BlockBitmap::buffer_index(DATA_ADDR_OFFSET + 509), 509);
    assert_eq!(BlockBitmap::buffer_index(DATA_ADDR_OFFSET + 4064), 0);
}

#[test]
fn allocate_sets_one_bit() {
    let mut dev = BlockDevice::new(0, 0);
    let addr = DATA_ADDR_OFFSET + 11;
    assert!(BlockBitmap::is_free(&dev, addr));
    BlockBitmap::allocate(&mut dev, addr);
    assert!(!BlockBitmap::is_free(&dev, addr));
    assert!(BlockBitmap::is_free(&dev, addr - 1));
    assert!(BlockBitmap::is_free(&dev, addr + 1));
    let bitmap = Block::read(&dev, BITMAP_ADDR_OFFSET);
    assert_eq!(bitmap.data()[1], 0b0000_1000);
    assert_eq!(bitmap.data()[0], 0);
    BlockBitmap::free(&mut dev, addr);
    assert!(BlockBitmap::is_free(&dev, addr));
    assert_eq!(Block::read(&dev, BITMAP_ADDR_OFFSET).data()[1], 0);
}

#[test]
fn each_block_has_its_own_bit() {
    let mut dev = BlockDevice::new(0, 0);
    BlockBitmap::allocate(&mut dev, DATA_ADDR_OFFSET);
    assert!(BlockBitmap::is_free(&dev, DATA_ADDR_OFFSET + 508));
    BlockBitmap::allocate(&mut dev, DATA_ADDR_OFFSET + 508);
    BlockBitmap::free(&mut dev, DATA_ADDR_OFFSET);
    assert!(BlockBitmap::is_free(&dev, DATA_ADDR_OFFSET));
    assert!(!BlockBitmap::is_free(&dev, DATA_ADDR_OFFSET + 508));
}

#[test]
fn addresses_outside_the_data_region_have_no_bit() {
    let mut dev = BlockDevice::new(0, 0);
    assert!(!BlockBitmap::is_free(&dev, 0));
    assert!(!BlockBitmap::is_free(&dev, DATA_ADDR_OFFSET - 1));
    assert!(!BlockBitmap::is_free(&dev, DATA_ADDR_OFFSET + MAX_BLOCKS));
    BlockBitmap::allocate(&mut dev, 5);
    BlockBitmap::allocate(&mut dev, DATA_ADDR_OFFSET + MAX_BLOCKS);
    BlockBitmap::free(&mut dev, DATA_ADDR_OFFSET + MAX_BLOCKS);
    assert_eq!(Block::read(&dev, BITMAP_ADDR_OFFSET).buf, [0u8; 512]);
    assert_eq!(Block::read(&dev, BITMAP_ADDR_OFFSET + 1).buf, [0u8; 512]);
}

#[test]
fn the_last_blocks_have_their_bits_in_the_second_bitmap_block() {
    let mut dev = BlockDevice::new(0, 0);
    for addr in [6626u32, 6627, 6640, 6657] {
        assert!(BlockBitmap::is_free(&dev, addr));
        BlockBitmap::allocate(&mut dev, addr);
        assert!(!BlockBitmap::is_free(&dev, addr));
    }
    assert_eq!(Block::read(&dev, BITMAP_ADDR_OFFSET).buf, [0u8; 512]);
    let second = Block::read(&dev, BITMAP_ADDR_OFFSET + 1);
    assert_eq!(&second.data()[0..4], &[0b0000_0011, 0b0100_0000, 0, 0b1000_0000]);
    assert!(second.data()[4..].iter().all(|b| *b == 0));
    assert!(BlockBitmap::is_free(&dev, 6625));
    assert!(BlockBitmap::is_free(&dev, 6628));
    assert!(BlockBitmap::is_free(&dev, DATA_ADDR_OFFSET));
    BlockBitmap::free(&mut dev, 6627);
    assert!(BlockBitmap::is_free(&dev, 6627));
    assert!(!BlockBitmap::is_free(&dev, 6626));
    assert!(!BlockBitmap::is_free(&dev, 6640));
    assert_eq!(Block::read(&dev, BITMAP_ADDR_OFFSET + 1).data()[0], 0b0000_0001);
}

#[test]
fn allocate_then_free_leaves_the_bitmap_as_it_was() {
    let mut dev = BlockDevice::new(0, 0);
    BlockBitmap::allocate(&mut dev, DATA_ADDR_OFFSET + 3);
    BlockBitmap::allocate(&mut dev, 6630);
    let first = Block::read(&dev, BITMAP_ADDR_OFFSET).buf;
    let second = Block::read(&dev, BITMAP_ADDR_OFFSET + 1).buf;
    for addr in [DATA_ADDR_OFFSET, DATA_ADDR_OFFSET + 4063, 6626, 6657] {
        BlockBitmap::allocate(&mut dev, addr);
        BlockBitmap::free(&mut dev, addr);
        assert_eq!(Block::read(&dev, BITMAP_ADDR_OFFSET).buf, first);
        assert_eq!(Block::read(&dev, BITMAP_ADDR_OFFSET + 1).buf, second);
    }
}

#[test]
fn the_scan_goes_on_into_the_second_bitmap_block() {
    let mut dev = BlockDevice::new(0, 0);
    for addr in DATA_ADDR_OFFSET..DATA_ADDR_OFFSET + BITMAP_BITS {
        BlockBitmap::allocate(&mut dev, addr);
    }
    assert_eq!(BlockBitmap::next_free_addr(&dev), Some(6626));
    assert_eq!(BlockBitmap::next_free_from(&dev, 4070), Some(6632));
    let block = Block::allocate(&mut dev).expect("a block is free");
    assert_eq!(block.addr(), 6626);
    assert_eq!(BlockBitmap::next_free_addr(&dev), Some(6627));
    BlockBitmap::free(&mut dev, DATA_ADDR_OFFSET + 9);
    assert_eq!(BlockBitmap::next_free_addr(&dev), Some(DATA_ADDR_OFFSET + 9));
    BlockBitmap::allocate(&mut dev, DATA_ADDR_OFFSET + 9);
    let mut taken = 1;
    while let Some(addr) = BlockBitmap::next_free_addr(&dev) {
        assert_eq!(addr, 6626 + taken);
        BlockBitmap::allocate(&mut dev, addr);
        taken += 1;
    }
    assert_eq!(taken, 32);
    assert!(Block::allocate(&mut dev).is_none());
}

#[test]
fn next_free_is_the_lowest_free_block() {
    let mut dev = BlockDevice::new(0, 0);
    assert_eq!(BlockBitmap::next_free_addr(&dev), Some(DATA_ADDR_OFFSET));
    BlockBitmap::allocate(&mut dev, DATA_ADDR_OFFSET);
    BlockBitmap::allocate(&mut dev, DATA_ADDR_OFFSET + 1);
    BlockBitmap::allocate(&mut dev, DATA_ADDR_OFFSET + 3);
    assert_eq!(BlockBitmap::next_free_addr(&dev), Some(DATA_ADDR_OFFSET + 2));
    assert_eq!(BlockBitmap::next_free_from(&dev, 3), Some(DATA_ADDR_OFFSET + 4));
    BlockBitmap::free(&mut dev, DATA_ADDR_OFFSET);
    assert_eq!(BlockBitmap::next_free_addr(&dev), Some(DATA_ADDR_OFFSET));
    assert_eq!(BlockBitmap::next_free_from(&dev, MAX_BLOCKS), None);
}

#[test]
fn next_free_is_never_a_used_block() {
    let mut dev = formatted();
    for _ in 0..40 {
        let addr = BlockBitmap::next_free_addr(&dev).expect("blocks are free");
        assert!(BlockBitmap::is_free(&dev, addr));
        BlockBitmap::allocate(&mut dev, addr);
        assert!(!BlockBitmap::is_free(&dev, addr));
        assert_ne!(BlockBitmap::next_free_addr(&dev), Some(addr));
    }
}

#[test]
fn allocate_hands_out_a_zeroed_block() {
    let mut dev = BlockDevice::new(0, 0);
    let junk = [0xEEu8; 512];
    dev.write(DATA_ADDR_OFFSET, &junk);
    let block = Block::allocate(&mut dev).expect("a block is free");
    assert_eq!(block.addr(), DATA_ADDR_OFFSET);
    assert_eq!(block.buf, [0u8; 512]);
    assert_eq!(Block::read(&dev, DATA_ADDR_OFFSET).buf, [0u8; 512]);
    assert!(!BlockBitmap::is_free(&dev, DATA_ADDR_OFFSET));
    let second = Block::allocate(&mut dev).expect("a block is free");
    assert_eq!(second.addr(), DATA_ADDR_OFFSET + 1);
}

#[test]
fn format_writes_signature_and_takes_root() {
    let dev = formatted();
    let mut buf = [0u8; 512];
    dev.read(SUPERBLOCK_ADDR, &mut buf);
    assert_eq!(&buf[0..8], b"PARVA FS");
    assert_eq!(&buf[8..], &[0u8; 504][..]);
    assert!(!BlockBitmap::is_free(&dev, DATA_ADDR_OFFSET));
    assert_eq!(BlockBitmap::next_free_addr(&dev), Some(DATA_ADDR_OFFSET + 1));
    assert!(SuperBlock::read(&dev));
}

#[test]
fn superblock_describes_the_mounted_device() {
    let mut fs = FileSystem::new();
    assert!(SuperBlock::new(&fs).is_none());
    mount(&mut fs, BlockDevice::new(0, 0));
    let sb = SuperBlock::new(&fs).expect("a device is mounted");
    assert_eq!(&sb.signature, b"PARVA FS");
    assert_eq!(sb.block_size, 512);
    assert_eq!(sb.block_count, 6658);
    assert_eq!(sb.alloc_count, 0);
    let mut dev = fs.unmount().expect("mounted");
    assert!(!SuperBlock::read(&dev));
    sb.write(&mut dev);
    assert!(SuperBlock::read(&dev));
}

#[test]
fn probe_mounts_the_first_formatted_device() {
    let mut fs = FileSystem::new();
    let mut second = FileSystem::new();
    parva_os::parva_fs::mount::format(&mut second, BlockDevice::new(0, 1));
    let mut third = FileSystem::new();
    parva_os::parva_fs::mount::format(&mut third, BlockDevice::new(1, 0));
    let devices = vec![
        BlockDevice::new(0, 0),
        second.unmount().expect("formatted"),
        third.unmount().expect("formatted"),
        BlockDevice::new(1, 1),
    ];
    init(&mut fs, devices);
    assert!(is_mounted(&fs));
    let dev = fs.device.as_ref().expect("mounted");
    assert_eq!((dev.bus(), dev.dsk()), (0, 1));
}

#[test]
fn probe_never_mounts_an_unformatted_device() {
    let mut fs = FileSystem::new();
    init(&mut fs, vec![BlockDevice::new(0, 0), BlockDevice::new(0, 1)]);
    assert!(!is_mounted(&fs));
    let mut almost = BlockDevice::new(1, 0);
    let mut sector = [0u8; 512];
    sector[0..8].copy_from_slice(b"PARVA_FS");
    almost.write(SUPERBLOCK_ADDR, &sector);
    init(&mut fs, vec![almost]);
    assert!(!is_mounted(&fs));
}

#[test]
fn create_then_find_gives_the_entry() {
    let mut dev = formatted();
    let root = Dir::root();
    let made = root.create_file(&mut dev, "a.txt").expect("created");
    assert!(made.is_file());
    assert!(!made.is_dir());
    assert_eq!(made.size(), 0);
    assert_eq!(made.addr, DATA_ADDR_OFFSET + 1);
    assert_eq!(made.name(), "a.txt");
    let found = root.find(&dev, "a.txt").expect("found");
    assert_eq!(found.kind, FileType::File);
    assert_eq!(found.addr, made.addr);
    assert_eq!(found.size, 0);
    assert_eq!(found.name, b"a.txt".to_vec());
    assert!(root.find(&dev, "b.txt").is_none());
    assert!(root.find(&dev, "a.tx").is_none());
    assert!(!BlockBitmap::is_free(&dev, made.addr));
}

#[test]
fn create_leaves_other_names_alone() {
    let mut dev = formatted();
    let root = Dir::root();
    let first = root.create_dir(&mut dev, "docs").expect("created");
    let before = root.find(&dev, "docs").expect("found");
    let second = root.create_file(&mut dev, "notes").expect("created");
    let after = root.find(&dev, "docs").expect("still found");
    assert_eq!(after.kind, FileType::Dir);
    assert_eq!(after.addr, before.addr);
    assert_eq!(after.addr, first.addr);
    assert_ne!(second.addr, first.addr);
    assert_eq!(root.find(&dev, "notes").expect("found").addr, second.addr);
}

#[test]
fn record_layout_on_disk() {
    let mut dev = formatted();
    let root = Dir::root();
    root.create_file(&mut dev, "ab").expect("created");
    let block = Block::read(&dev, DATA_ADDR_OFFSET);
    let expect = [1u8, 0, 0, 0x0A, 0x03, 0, 0, 0, 0, 2, b'a', b'b', 0];
    assert_eq!(&block.data()[0..13], &expect);
    let mut root = root;
    root.update_entry_size(&mut dev, b"ab", 0x0102_0304);
    let block = Block::read(&dev, DATA_ADDR_OFFSET);
    assert_eq!(&block.data()[5..9], &[1, 2, 3, 4]);
    assert_eq!(root.find(&dev, "ab").expect("found").size, 0x0102_0304);
}

#[test]
fn create_refuses_a_name_in_use() {
    let mut dev = formatted();
    let root = Dir::root();
    assert!(root.create_file(&mut dev, "x").is_some());
    let free = BlockBitmap::next_free_addr(&dev);
    assert!(root.create_file(&mut dev, "x").is_none());
    assert!(root.create_dir(&mut dev, "x").is_none());
    assert_eq!(BlockBitmap::next_free_addr(&dev), free);
}

#[test]
fn create_refuses_names_that_no_record_can_hold() {
    let mut dev = formatted();
    let root = Dir::root();
    assert!(root.create_file(&mut dev, "").is_none());
    let long = "n".repeat(256);
    assert!(root.create_file(&mut dev, &long).is_none());
    let longest = "n".repeat(255);
    let made = root.create_file(&mut dev, &longest).expect("255 bytes fit");
    assert_eq!(made.len(), 265);
    assert_eq!(root.find(&dev, &longest).expect("found").addr, made.addr);
}

#[test]
fn directory_grows_into_a_second_block() {
    let mut dev = formatted();
    let root = Dir::root();
    let a = "a".repeat(200);
    let b = "b".repeat(200);
    let c = "c".repeat(200);
    let first = root.create_file(&mut dev, &a).expect("created");
    let second = root.create_file(&mut dev, &b).expect("created");
    assert_eq!(first.addr, DATA_ADDR_OFFSET + 1);
    assert_eq!(second.addr, DATA_ADDR_OFFSET + 2);
    let third = root.create_file(&mut dev, &c).expect("created");
    assert_eq!(third.addr, DATA_ADDR_OFFSET + 4);
    assert_eq!(Block::read(&dev, DATA_ADDR_OFFSET).next_addr(), DATA_ADDR_OFFSET + 3);
    assert_eq!(root.find(&dev, &a).expect("found").addr, first.addr);
    assert_eq!(root.find(&dev, &b).expect("found").addr, second.addr);
    assert_eq!(root.find(&dev, &c).expect("found").addr, third.addr);
    let mut rd = root.read(&dev);
    let mut names = Vec::new();
    while let Some(entry) = rd.next(&dev) {
        names.push(entry.name());
    }
    assert_eq!(names, vec![a, b, c]);
}

#[test]
fn delete_hides_the_entry_and_keeps_its_siblings() {
    let mut dev = formatted();
    let mut root = Dir::root();
    let a = root.create_file(&mut dev, "a").expect("created");
    let b = root.create_file(&mut dev, "b").expect("created");
    let c = root.create_dir(&mut dev, "c").expect("created");
    assert!(root.delete_entry(&mut dev, "b").is_ok());
    assert!(root.find(&dev, "b").is_none());
    assert_eq!(root.find(&dev, "a").expect("found").addr, a.addr);
    let found = root.find(&dev, "c").expect("found");
    assert_eq!(found.addr, c.addr);
    assert!(found.is_dir());
    assert!(BlockBitmap::is_free(&dev, b.addr));
    assert!(!BlockBitmap::is_free(&dev, a.addr));
    assert!(!BlockBitmap::is_free(&dev, c.addr));
    assert!(root.delete_entry(&mut dev, "b").is_err());
    assert!(root.delete_entry(&mut dev, "zzz").is_err());
}

#[test]
fn dead_record_stays_in_place() {
    let mut dev = formatted();
    let mut root = Dir::root();
    root.create_file(&mut dev, "a").expect("created");
    root.create_file(&mut dev, "b").expect("created");
    root.delete_entry(&mut dev, "a").expect("deleted");
    let block = Block::read(&dev, DATA_ADDR_OFFSET);
    assert_eq!(&block.data()[0..11], &[1, 0, 0, 0, 0, 0, 0, 0, 0, 1, b'a']);
    let again = root.create_file(&mut dev, "a").expect("created again");
    assert_eq!(again.addr, DATA_ADDR_OFFSET + 1);
    let block = Block::read(&dev, DATA_ADDR_OFFSET);
    assert_eq!(&block.data()[22..33], &[1, 0, 0, 0x0A, 0x03, 0, 0, 0, 0, 1, b'a']);
    assert_eq!(root.find(&dev, "a").expect("found").addr, again.addr);
}

#[test]
fn delete_frees_every_block_of_the_chain() {
    let mut dev = formatted();
    let mut root = Dir::root();
    let mut file = root.create_file(&mut dev, "big").expect("created").to_file();
    let data = vec![5u8; 508 * 3];
    file.write(&mut dev, &data).expect("written");
    let second = Block::read(&dev, file.addr()).next_addr();
    let third = Block::read(&dev, second).next_addr();
    assert_ne!(second, 0);
    assert_ne!(third, 0);
    assert!(!BlockBitmap::is_free(&dev, third));
    root.delete_entry(&mut dev, "big").expect("deleted");
    assert!(BlockBitmap::is_free(&dev, file.addr()));
    assert!(BlockBitmap::is_free(&dev, second));
    assert!(BlockBitmap::is_free(&dev, third));
    assert!(!BlockBitmap::is_free(&dev, DATA_ADDR_OFFSET));
}

#[test]
fn write_then_read_gives_the_bytes_back() {
    let mut dev = formatted();
    let root = Dir::root();
    let mut file = root.create_file(&mut dev, "f").expect("created").to_file();
    let data: Vec<u8> = (0..1200u32).map(|i| (i % 251) as u8).collect();
    assert!(file.write(&mut dev, &data).is_ok());
    assert_eq!(file.size(), 1200);
    let mut buf = vec![0xFFu8; 1300];
    assert_eq!(file.read(&dev, &mut buf), 1200);
    assert_eq!(&buf[..1200], &data[..]);
    assert_eq!(&buf[1200..], &[0xFFu8; 100][..]);
    let reopened = root.find(&dev, "f").expect("found").to_file();
    assert_eq!(reopened.size(), 1200);
    assert_eq!(reopened.addr(), file.addr());
    let mut again = vec![0u8; 1200];
    assert_eq!(reopened.read(&dev, &mut again), 1200);
    assert_eq!(again, data);
}

#[test]
fn write_replaces_what_was_there() {
    let mut dev = formatted();
    let root = Dir::root();
    let mut file = root.create_file(&mut dev, "f").expect("created").to_file();
    file.write(&mut dev, &vec![1u8; 1100]).expect("written");
    let second = Block::read(&dev, file.addr()).next_addr();
    assert_ne!(second, 0);
    file.write(&mut dev, b"short").expect("written");
    assert_eq!(file.size(), 5);
    assert_eq!(Block::read(&dev, file.addr()).next_addr(), 0);
    let mut buf = [0u8; 16];
    assert_eq!(file.read(&dev, &mut buf), 5);
    assert_eq!(&buf[..5], b"short");
    assert_eq!(root.find(&dev, "f").expect("found").size, 5);
}

#[test]
fn write_keeps_the_blocks_it_has() {
    let mut dev = formatted();
    let root = Dir::root();
    let mut file = root.create_file(&mut dev, "f").expect("created").to_file();
    file.write(&mut dev, &vec![1u8; 1000]).expect("written");
    let second = Block::read(&dev, file.addr()).next_addr();
    let free = BlockBitmap::next_free_addr(&dev);
    file.write(&mut dev, &vec![2u8; 1016]).expect("written");
    assert_eq!(Block::read(&dev, file.addr()).next_addr(), second);
    assert_eq!(BlockBitmap::next_free_addr(&dev), free);
    let mut buf = vec![0u8; 1016];
    assert_eq!(file.read(&dev, &mut buf), 1016);
    assert_eq!(buf, vec![2u8; 1016]);
}

#[test]
fn empty_write_sets_size_zero() {
    let mut dev = formatted();
    let root = Dir::root();
    let mut file = root.create_file(&mut dev, "f").expect("created").to_file();
    file.write(&mut dev, b"abc").expect("written");
    file.write(&mut dev, b"").expect("written");
    assert_eq!(file.size(), 0);
    let mut buf = [9u8; 4];
    assert_eq!(file.read(&dev, &mut buf), 0);
    assert_eq!(buf, [9u8; 4]);
    assert_eq!(root.find(&dev, "f").expect("found").size, 0);
}

#[test]
fn read_stops_at_the_buffer() {
    let mut dev = formatted();
    let root = Dir::root();
    let mut file = root.create_file(&mut dev, "f").expect("created").to_file();
    file.write(&mut dev, b"hello world").expect("written");
    let mut buf = [0u8; 5];
    assert_eq!(file.read(&dev, &mut buf), 5);
    assert_eq!(&buf, b"hello");
    let mut none: [u8; 0] = [];
    assert_eq!(file.read(&dev, &mut none), 0);
}

#[test]
fn read_stops_where_the_chain_ends() {
    let mut dev = formatted();
    let mut root = Dir::root();
    let mut file = root.create_file(&mut dev, "f").expect("created").to_file();
    file.write(&mut dev, b"abc").expect("written");
    root.update_entry_size(&mut dev, b"f", 2000);
    let long = root.find(&dev, "f").expect("found").to_file();
    assert_eq!(long.size(), 2000);
    let mut buf = vec![0u8; 2000];
    assert_eq!(long.read(&dev, &mut buf), 508);
    assert_eq!(&buf[..3], b"abc");
}

#[test]
fn read_to_string_decodes_utf8() {
    let mut dev = formatted();
    let root = Dir::root();
    let mut file = root.create_file(&mut dev, "f").expect("created").to_file();
    file.write(&mut dev, "grüße".as_bytes()).expect("written");
    assert_eq!(file.read_to_string(&dev), Some(String::from("grüße")));
    file.write(&mut dev, &[0xFF, 0xFE]).expect("written");
    assert_eq!(file.read_to_string(&dev), None);
}

#[test]
fn full_disk_fails_create_and_write_cleanly() {
    let mut dev = formatted();
    let root = Dir::root();
    let mut file = root.create_file(&mut dev, "f").expect("created").to_file();
    file.write(&mut dev, b"kept").expect("written");
    while let Some(addr) = BlockBitmap::next_free_addr(&dev) {
        BlockBitmap::allocate(&mut dev, addr);
    }
    assert!(Block::allocate(&mut dev).is_none());
    let bitmap = Block::read(&dev, BITMAP_ADDR_OFFSET).buf;
    let bitmap_end = Block::read(&dev, BITMAP_ADDR_OFFSET + 1).buf;
    let dir_block = Block::read(&dev, DATA_ADDR_OFFSET).buf;
    assert!(root.create_file(&mut dev, "g").is_none());
    assert!(root.create_dir(&mut dev, "h").is_none());
    assert_eq!(Block::read(&dev, BITMAP_ADDR_OFFSET).buf, bitmap);
    assert_eq!(Block::read(&dev, BITMAP_ADDR_OFFSET + 1).buf, bitmap_end);
    assert_eq!(Block::read(&dev, DATA_ADDR_OFFSET).buf, dir_block);
    assert!(file.write(&mut dev, &vec![3u8; 509]).is_err());
    assert_eq!(file.size(), 4);
    assert_eq!(Block::read(&dev, BITMAP_ADDR_OFFSET).buf, bitmap);
    assert_eq!(Block::read(&dev, BITMAP_ADDR_OFFSET + 1).buf, bitmap_end);
    assert_eq!(root.find(&dev, "f").expect("found").size, 4);
    let mut buf = [0u8; 4];
    assert_eq!(file.read(&dev, &mut buf), 4);
    assert_eq!(&buf, b"kept");
    assert!(file.write(&mut dev, &vec![3u8; 508]).is_ok());
    assert_eq!(file.size(), 508);
}

#[test]
fn one_free_block_is_not_enough_for_a_new_tail() {
    let mut dev = formatted();
    let root = Dir::root();
    let a = "a".repeat(240);
    let b = "b".repeat(240);
    root.create_file(&mut dev, &a).expect("created");
    root.create_file(&mut dev, &b).expect("created");
    while let Some(addr) = BlockBitmap::next_free_addr(&dev) {
        BlockBitmap::allocate(&mut dev, addr);
    }
    BlockBitmap::free(&mut dev, DATA_ADDR_OFFSET + 100);
    let bitmap = Block::read(&dev, BITMAP_ADDR_OFFSET).buf;
    let bitmap_end = Block::read(&dev, BITMAP_ADDR_OFFSET + 1).buf;
    assert!(root.create_file(&mut dev, "c").is_none());
    assert_eq!(Block::read(&dev, BITMAP_ADDR_OFFSET).buf, bitmap);
    assert_eq!(Block::read(&dev, BITMAP_ADDR_OFFSET + 1).buf, bitmap_end);
    assert_eq!(Block::read(&dev, DATA_ADDR_OFFSET).next_addr(), 0);
    BlockBitmap::free(&mut dev, DATA_ADDR_OFFSET + 200);
    let made = root.create_file(&mut dev, "c").expect("two blocks suffice");
    assert_eq!(made.addr, DATA_ADDR_OFFSET + 200);
    assert_eq!(Block::read(&dev, DATA_ADDR_OFFSET).next_addr(), DATA_ADDR_OFFSET + 100);
}

#[test]
fn scan_stops_on_a_chain_that_never_ends() {
    let mut dev = formatted();
    let mut root_block = Block::read(&dev, DATA_ADDR_OFFSET);
    root_block.set_next(DATA_ADDR_OFFSET);
    root_block.write(&mut dev);
    let root = Dir::root();
    assert!(root.find(&dev, "nothing").is_none());
    assert!(root.create_file(&mut dev, "x").is_none());
}

#[test]
fn entry_conversions() {
    let dir = Dir::root();
    let entry = DirEntry::new(dir, FileType::File, 3000, 17, "name");
    assert_eq!(entry.len(), 14);
    assert_eq!(entry.size(), 17);
    assert_eq!(entry.name(), "name");
    let file = entry.to_file();
    assert_eq!(file.addr(), 3000);
    assert_eq!(file.size(), 17);
    assert_eq!(file.name, b"name".to_vec());
    assert_eq!(file.dir.addr(), DATA_ADDR_OFFSET);
    let sub = DirEntry::new(dir, FileType::Dir, 3001, 0, "d");
    assert!(sub.is_dir());
    assert_eq!(sub.to_dir().addr(), 3001);
}

#[test]
fn name_bytes_become_characters_one_by_one() {
    let entry = DirEntry::new(Dir::root(), FileType::File, 1, 0, "é");
    assert_eq!(entry.name, vec![0xC3, 0xA9]);
    assert_eq!(entry.name(), "\u{C3}\u{A9}");
}

#[test]
fn a_scrambled_disk_stops_no_operation() {
    let mut dev = BlockDevice::new(0, 0);
    let mut state: u32 = 0x1234_5678;
    let mut sector = [0u8; 512];
    for addr in DATA_ADDR_OFFSET..DATA_ADDR_OFFSET + 64 {
        for byte in sector.iter_mut() {
            state = state.wrapping_mul(1_664_525).wrapping_add(1_013_904_223);
            *byte = (state >> 24) as u8 % 3;
        }
        sector[0] = 0;
        sector[1] = 0;
        sector[2] = 0x0A;
        sector[3] = (2 + (state >> 8) % 64) as u8;
        dev.write(addr, &sector);
    }
    let mut root = Dir::root();
    let mut rd = root.read(&dev);
    let mut seen = 0;
    while let Some(entry) = rd.next(&dev) {
        assert_ne!(entry.addr, 0);
        assert!(!entry.name.is_empty());
        seen += 1;
        assert!(seen < 1_000_000);
    }
    let _ = root.find(&dev, "\u{1}");
    let _ = root.create_file(&mut dev, "new");
    let _ = root.delete_entry(&mut dev, "\u{1}\u{2}");
    let _ = root.delete_entry(&mut dev, "\u{2}");
    let mut file = DirEntry::new(root, FileType::File, DATA_ADDR_OFFSET + 5, 3000, "x").to_file();
    let mut buf = vec![0u8; 4000];
    assert!(file.read(&dev, &mut buf) <= 3000);
    let _ = file.write(&mut dev, &vec![7u8; 5000]);
    let _ = file.read_to_string(&dev);
}

#[test]
fn names_at_the_top_of_the_module() {
    let entry = parva_os::parva_fs::DirEntry::new(
        parva_os::parva_fs::Dir::root(),
        parva_os::parva_fs::FileType::Dir,
        1,
        0,
        "d",
    );
    assert!(entry.is_dir());
    assert_eq!(parva_os::parva_fs::dirname("/a/b"), "/a");
    assert!(!parva_os::parva_fs::is_mounted(&parva_os::parva_fs::FileSystem::new()));
}
