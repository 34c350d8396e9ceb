use parva_os::parva_fs::block_device::BlockDevice;
use parva_os::parva_fs::dir::Dir;
use parva_os::parva_fs::file::File;
use parva_os::parva_fs::mount::{is_mounted, FileSystem};

#[test]
fn format_create_write_read_delete() {
    let mut fs = FileSystem::new();
    assert!(!is_mounted(&fs));
    parva_os::parva_fs::mount::format(&mut fs, BlockDevice::new(0, 0));
    assert!(is_mounted(&fs));

    let docs = Dir::create(&mut fs, "/docs");
    assert!(docs.is_some());

    let mut file = File::create(&mut fs, "/docs/a.txt").expect("the file is made");
    assert_eq!(file.size(), 0);

    let dev = fs.device.as_mut().expect("a device is mounted");
    assert!(file.write(dev, b"hello").is_ok());
    assert_eq!(file.size(), 5);

    let mut buf = [0u8; 5];
    let dev = fs.device.as_ref().expect("a device is mounted");
    assert_eq!(file.read(dev, &mut buf), 5);
    assert_eq!(&buf, b"hello");

    let again = File::open(&fs, "/docs/a.txt").expect("the file is there");
    assert_eq!(again.size(), 5);
    assert_eq!(again.addr(), file.addr());

    assert!(File::delete(&mut fs, "/docs/a.txt").is_ok());
    assert!(File::open(&fs, "/docs/a.txt").is_none());
}
