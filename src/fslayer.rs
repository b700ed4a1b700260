//! A live filesystem observation, as the catalogue compares and records it.

use crate::dblayer::DbTime;
use vstd::prelude::*;

verus! {

/// A file or directory as read from the filesystem.
#[derive(Debug)]
pub struct FsDirEntry {
    pub name: String,
    /// Size in bytes; 0 for a directory.
    pub size: u64,
    pub mod_time: DbTime,
    pub is_dir: bool,
}

impl FsDirEntry {
    pub fn new_file(name: String, size: u64, mod_time: DbTime) -> (r: FsDirEntry)
        ensures
            r.name == name,
            r.size == size,
            r.mod_time == mod_time,
            !r.is_dir,
    {
        FsDirEntry { name, size, mod_time, is_dir: false }
    }

    pub fn new_dir(name: String, mod_time: DbTime) -> (r: FsDirEntry)
        ensures
            r.name == name,
            r.size == 0,
            r.mod_time == mod_time,
            r.is_dir,
    {
        FsDirEntry { name, size: 0, mod_time, is_dir: true }
    }
}

} // verus!
