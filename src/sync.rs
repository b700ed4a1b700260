//! Classifies how a catalogued entry differs from its live counterpart.

use crate::dblayer::DirEntry;
use crate::fslayer::FsDirEntry;
use vstd::prelude::*;

verus! {

/// How a catalogued entry relates to the live filesystem entry.
#[derive(Debug, PartialEq, Eq, Structural)]
pub enum DbFsCompareResult {
    /// Nothing to do.
    Same,
    /// The catalogue has a file; the filesystem now has a directory.
    DbItemBecameDir,
    /// The catalogue has a directory; the filesystem now has a file.
    DbItemBecameFile,
    /// A directory whose modification time differs.
    ModTime,
    /// A file whose modification time or size differs.
    Size,
}

pub open spec fn compare_spec(db_item: DirEntry, fs_item: FsDirEntry) -> DbFsCompareResult {
    if db_item.is_dir != fs_item.is_dir {
        if db_item.is_dir {
            DbFsCompareResult::DbItemBecameFile
        } else {
            DbFsCompareResult::DbItemBecameDir
        }
    } else if db_item.is_dir {
        if db_item.fs_mod_time == fs_item.mod_time {
            DbFsCompareResult::Same
        } else {
            DbFsCompareResult::ModTime
        }
    } else if db_item.fs_mod_time == fs_item.mod_time && db_item.fs_size as int == fs_item.size as int {
        DbFsCompareResult::Same
    } else {
        DbFsCompareResult::Size
    }
}

/// Quick comparison: the kind first, then the modification time, and for a
/// file the size as well.
pub fn compare_db_to_fsitem(db_item: &DirEntry, fs_item: &FsDirEntry) -> (r: DbFsCompareResult)
    ensures
        r == compare_spec(*db_item, *fs_item),
{
    if db_item.is_dir != fs_item.is_dir {
        return if db_item.is_dir {
            DbFsCompareResult::DbItemBecameFile
        } else {
            DbFsCompareResult::DbItemBecameDir
        };
    }
    let is_same_date = db_item.fs_mod_time == fs_item.mod_time;
    if db_item.is_dir {
        if is_same_date {
            DbFsCompareResult::Same
        } else {
            DbFsCompareResult::ModTime
        }
    } else {
        let same_size = db_item.fs_size >= 0 && db_item.fs_size as u64 == fs_item.size;
        if is_same_date && same_size {
            DbFsCompareResult::Same
        } else {
            DbFsCompareResult::Size
        }
    }
}

/// `Same` comes out only when the kinds agree, the modification times are
/// equal and, for a file, the sizes are equal; whenever the kinds disagree the
/// result is a change of kind, whatever the other fields hold.
pub proof fn lemma_same_only_when_unchanged(db_item: DirEntry, fs_item: FsDirEntry)
    ensures
        compare_spec(db_item, fs_item) == DbFsCompareResult::Same <==> {
            &&& db_item.is_dir == fs_item.is_dir
            &&& db_item.fs_mod_time == fs_item.mod_time
            &&& !db_item.is_dir ==> db_item.fs_size as int == fs_item.size as int
        },
        db_item.is_dir && !fs_item.is_dir ==> compare_spec(db_item, fs_item)
            == DbFsCompareResult::DbItemBecameFile,
        !db_item.is_dir && fs_item.is_dir ==> compare_spec(db_item, fs_item)
            == DbFsCompareResult::DbItemBecameDir,
{
}

} // verus!
