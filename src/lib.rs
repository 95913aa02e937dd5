//! A FAT32 file-system driver over a 512-byte block device.
//!
//! - `block_dev`: the device interface and an in-memory device.
//! - `block_cache`: a bounded write-back sector cache with a data pool and
//!   an info pool, modelled by the sectors as they read through it.
//! - `layout`: boot sector, FS-info, short and long directory entries,
//!   checksum, name and timestamp decoding.
//! - `fat`: the two mirrored allocation tables and the cluster chains in
//!   them.
//! - `fat32_manager`: mounting, geometry, cluster allocation and release.
//! - `names`: 8.3 names, `~1` names and long-name chunks.
//! - `dir`: directory bytes read as logical entries.
//! - `vfs`: files and directories: read, write, grow, create, remove,
//!   lookup.
use vstd::prelude::*;

pub mod block_cache;
pub mod block_dev;
pub mod dir;
pub mod fat;
pub mod fat32_manager;
pub mod layout;
pub mod names;
pub mod utils;
pub mod vfs;

verus! {

/// Size of one sector in bytes.
pub const BLOCK_SZ: usize = 512;

} // verus!
