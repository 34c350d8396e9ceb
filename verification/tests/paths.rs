use parva_os::parva_fs::block_device::BlockDevice;
use parva_os::parva_fs::dir::Dir;
use parva_os::parva_fs::file::File;
use parva_os::parva_fs::layout::DATA_ADDR_OFFSET;
use parva_os::parva_fs::mount::{is_mounted, mount, FileSystem};
use parva_os::parva_fs::path::{dirname, filename, realpath};

fn fresh() -> FileSystem {
    let mut fs = FileSystem::new();
    parva_os::parva_fs::mount::format(&mut fs, BlockDevice::new(0, 0));
    fs
}

#[test]
fn dirname_is_what_stands_before_the_last_slash() {
    assert_eq!(dirname("/a/b"), "/a");
    assert_eq!(dirname("/a/b/c.txt"), "/a/b");
    assert_eq!(dirname("/a"), "/");
    assert_eq!(dirname("/"), "/");
    assert_eq!(dirname("a/b"), "a");
    assert_eq!(dirname("/a/"), "/a");
    assert_eq!(dirname("plain"), "plain");
    assert_eq!(dirname(""), "");
    assert_eq!(dirname("/ü/ö"), "/ü");
}

#[test]
fn filename_is_what_stands_after_the_last_slash() {
    assert_eq!(filename("/a/b"), "b");
    assert_eq!(filename("/a/b/c.txt"), "c.txt");
    assert_eq!(filename("/a"), "a");
    assert_eq!(filename("/"), "");
    assert_eq!(filename("/a/"), "");
    assert_eq!(filename("plain"), "plain");
    assert_eq!(filename(""), "");
    assert_eq!(filename("/ü/ö"), "ö");
}

#[test]
fn realpath_resolves_against_the_current_directory() {
    assert_eq!(realpath("/x/y", "/home"), "/x/y");
    assert_eq!(realpath("x", "/"), "/x");
    assert_eq!(realpath("x/y", "/home"), "/home/x/y");
    assert_eq!(realpath("x", "/home/"), "/home/x");
    assert_eq!(realpath("", "/home"), "/home/");
    assert_eq!(realpath("x", ""), "/x");
}

#[test]
fn current_directory_can_be_changed() {
    let mut fs = FileSystem::new();
    assert_eq!(fs.dir(), "/");
    fs.set_dir("/docs");
    assert_eq!(fs.dir(), "/docs");
    assert!(!is_mounted(&fs));
}

#[test]
fn open_root() {
    let fs = fresh();
    assert_eq!(Dir::open(&fs, "/").expect("the root opens").addr(), DATA_ADDR_OFFSET);
    assert_eq!(Dir::open(&fs, "").expect("the current directory opens").addr(), DATA_ADDR_OFFSET);
}

#[test]
fn nothing_opens_without_a_device() {
    let mut fs = FileSystem::new();
    assert!(Dir::open(&fs, "/").is_none());
    assert!(Dir::create(&mut fs, "/d").is_none());
    assert!(File::create(&mut fs, "/f").is_none());
    assert!(File::open(&fs, "/f").is_none());
    assert!(File::delete(&mut fs, "/f").is_err());
    assert!(Dir::delete(&mut fs, "/d").is_err());
}

#[test]
fn open_walks_each_component() {
    let mut fs = fresh();
    let a = Dir::create(&mut fs, "/a").expect("created");
    let b = Dir::create(&mut fs, "/a/b").expect("created");
    let c = Dir::create(&mut fs, "/a/b/c").expect("created");
    assert_eq!(Dir::open(&fs, "/a").expect("opens").addr(), a.addr());
    assert_eq!(Dir::open(&fs, "/a/b").expect("opens").addr(), b.addr());
    assert_eq!(Dir::open(&fs, "/a/b/c").expect("opens").addr(), c.addr());
    assert_eq!(Dir::open(&fs, "//a/b").expect("leading slashes are dropped").addr(), b.addr());
    assert!(Dir::open(&fs, "/a/x/c").is_none());
    assert!(Dir::open(&fs, "/b").is_none());
    assert!(Dir::open(&fs, "/a/").is_none());
    assert!(Dir::open(&fs, "/a//b").is_none());
}

#[test]
fn open_refuses_a_file_on_the_way() {
    let mut fs = fresh();
    Dir::create(&mut fs, "/a").expect("created");
    File::create(&mut fs, "/a/f").expect("created");
    assert!(Dir::open(&fs, "/a/f").is_none());
    assert!(File::create(&mut fs, "/a/f/g").is_none());
    assert!(File::open(&fs, "/a").is_none());
}

#[test]
fn relative_names_start_at_the_current_directory() {
    let mut fs = fresh();
    let docs = Dir::create(&mut fs, "docs").expect("created in the root");
    fs.set_dir("/docs");
    let file = File::create(&mut fs, "a.txt").expect("created in /docs");
    assert_eq!(file.dir.addr(), docs.addr());
    assert!(File::open(&fs, "/docs/a.txt").is_some());
    assert!(File::open(&fs, "a.txt").is_some());
    fs.set_dir("/");
    assert!(File::open(&fs, "a.txt").is_none());
    assert!(File::open(&fs, "docs/a.txt").is_some());
}

#[test]
fn create_needs_the_parent_and_a_free_name() {
    let mut fs = fresh();
    assert!(File::create(&mut fs, "/missing/f").is_none());
    assert!(Dir::create(&mut fs, "/missing/d").is_none());
    assert!(File::create(&mut fs, "/f").is_some());
    assert!(File::create(&mut fs, "/f").is_none());
    assert!(Dir::create(&mut fs, "/f").is_none());
    assert!(Dir::create(&mut fs, "/").is_none());
}

#[test]
fn delete_by_path() {
    let mut fs = fresh();
    Dir::create(&mut fs, "/d").expect("created");
    File::create(&mut fs, "/d/f").expect("created");
    File::create(&mut fs, "/d/g").expect("created");
    assert!(File::delete(&mut fs, "/d/f").is_ok());
    assert!(File::open(&fs, "/d/f").is_none());
    assert!(File::open(&fs, "/d/g").is_some());
    assert!(File::delete(&mut fs, "/d/f").is_err());
    assert!(File::delete(&mut fs, "/x/f").is_err());
    assert!(Dir::delete(&mut fs, "/d").is_ok());
    assert!(Dir::open(&fs, "/d").is_none());
}

#[test]
fn size_is_kept_across_mounts() {
    let mut fs = fresh();
    let mut file = File::create(&mut fs, "/f").expect("created");
    file.write(fs.device.as_mut().expect("mounted"), b"twelve bytes").expect("written");
    let dev = fs.unmount().expect("mounted");
    assert!(!is_mounted(&fs));
    let mut other = FileSystem::new();
    mount(&mut other, dev);
    let again = File::open(&other, "/f").expect("opens");
    assert_eq!(again.size(), 12);
    assert_eq!(
        again.read_to_string(other.device.as_ref().expect("mounted")),
        Some(String::from("twelve bytes"))
    );
}

#[test]
fn a_written_file_opens_again_by_its_path() {
    let mut fs = fresh();
    Dir::create(&mut fs, "/a").expect("created");
    Dir::create(&mut fs, "/a/b").expect("created");
    File::create(&mut fs, "/a/other").expect("created");
    let mut file = File::create(&mut fs, "/a/b/f.txt").expect("created");
    let data: Vec<u8> = (0..1500u32).map(|i| (i % 199) as u8).collect();
    file.write(fs.device.as_mut().expect("mounted"), &data).expect("written");
    let addr = file.addr();
    drop(file);
    let again = File::open(&fs, "/a/b/f.txt").expect("opens");
    assert_eq!(again.size(), data.len());
    assert_eq!(again.addr(), addr);
    let mut buf = vec![0u8; data.len()];
    assert_eq!(again.read(fs.device.as_ref().expect("mounted"), &mut buf), data.len());
    assert_eq!(buf, data);
    assert_eq!(File::open(&fs, "/a/other").expect("opens").size(), 0);
    assert!(Dir::open(&fs, "/a/b").is_some());
}
