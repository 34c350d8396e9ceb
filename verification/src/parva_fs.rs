//! The filesystem: a superblock, a bitmap of used blocks, and directories and
//! files kept as chains of 512-byte blocks.

pub mod bitmap;
pub mod block;
pub mod block_device;
pub mod chain;
pub mod dir;
pub mod dir_proofs;
pub mod file;
pub mod file_proofs;
pub mod layout;
pub mod mount;
pub mod path;
pub mod super_block;

pub use self::bitmap::BlockBitmap;
pub use self::block::Block;
pub use self::block_device::BlockDevice;
pub use self::dir::{Dir, DirEntry, FileType, ReadDir};
pub use self::file::File;
pub use self::mount::{init, is_mounted, mount, FileSystem};
pub use self::path::{dirname, filename, realpath};
pub use self::super_block::SuperBlock;
