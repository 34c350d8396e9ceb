//! Storage core of a small x86 kernel: a block-chained filesystem over
//! 512-byte sectors, and the register-level protocol of the IDE bus below it.

pub mod ata;
pub mod bits;
pub mod parva_fs;
pub mod text;
