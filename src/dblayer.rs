//! Catalogue records and the identifier generator.

use vstd::prelude::*;

verus! {

/// Identifier of a catalogue row.
pub type DbId = i64;

/// A point in time: nanoseconds since the Unix epoch.
pub type DbTime = i64;

/// Identifier of the filter that a fresh catalogue starts with.
pub const DEFAULT_FILTER_ID: DbId = 1;

/// A named, root-anchored catalogued subtree.
#[derive(Debug)]
pub struct Collection {
    pub id: DbId,
    pub coll_name: String,
    pub fs_path: String,
    pub root_id: DbId,
    pub glob_filter_id: DbId,
}

impl Collection {
    pub fn table_name() -> (r: &'static str)
        ensures
            r@ == collections_table(),
    {
        let r = "collections";
        proof {
            reveal_strlit("collections");
            assert(r@ =~= collections_table());
        }
        r
    }
}

impl Clone for Collection {
    fn clone(&self) -> (r: Self)
        ensures
            r == *self,
    {
        Collection {
            id: self.id,
            coll_name: self.coll_name.clone(),
            fs_path: self.fs_path.clone(),
            root_id: self.root_id,
            glob_filter_id: self.glob_filter_id,
        }
    }
}

impl PartialEq for Collection {
    fn eq(&self, other: &Collection) -> (r: bool) {
        self.id == other.id && self.coll_name == other.coll_name && self.fs_path == other.fs_path
            && self.root_id == other.root_id && self.glob_filter_id == other.glob_filter_id
    }
}

impl vstd::std_specs::cmp::PartialEqSpecImpl for Collection {
    open spec fn obeys_eq_spec() -> bool {
        true
    }

    open spec fn eq_spec(&self, other: &Collection) -> bool {
        self.id == other.id && self.coll_name@ == other.coll_name@ && self.fs_path@
            == other.fs_path@ && self.root_id == other.root_id && self.glob_filter_id
            == other.glob_filter_id
    }
}

/// One file or directory as it was when last synchronised.
#[derive(Debug)]
pub struct DirEntry {
    pub id: DbId,
    pub fs_name: String,
    pub fs_mod_time: DbTime,
    pub last_sync_time: DbTime,
    pub is_dir: bool,
    /// Size in bytes; 0 for a directory.
    pub fs_size: i64,
}

impl DirEntry {
    pub fn table_name() -> (r: &'static str)
        ensures
            r@ == dir_entries_table(),
    {
        let r = "dir_entries";
        proof {
            reveal_strlit("dir_entries");
            assert(r@ =~= dir_entries_table());
        }
        r
    }
}

impl Clone for DirEntry {
    fn clone(&self) -> (r: Self)
        ensures
            r == *self,
    {
        DirEntry {
            id: self.id,
            fs_name: self.fs_name.clone(),
            fs_mod_time: self.fs_mod_time,
            last_sync_time: self.last_sync_time,
            is_dir: self.is_dir,
            fs_size: self.fs_size,
        }
    }
}

/// A hierarchy edge: `entry_id` lies directly inside the directory `directory_id`.
#[derive(Debug, Clone, Copy, PartialEq, Eq, Structural)]
pub struct DirLink {
    pub directory_id: DbId,
    pub entry_id: DbId,
}

/// A matching rule, keyed by its pattern text.
#[derive(Debug)]
pub struct GlobPattern {
    pub id: DbId,
    pub regexp: String,
}

impl GlobPattern {
    pub fn table_name() -> (r: &'static str)
        ensures
            r@ == glob_patterns_table(),
    {
        let r = "glob_patterns";
        proof {
            reveal_strlit("glob_patterns");
            assert(r@ =~= glob_patterns_table());
        }
        r
    }
}

impl Clone for GlobPattern {
    fn clone(&self) -> (r: Self)
        ensures
            r == *self,
    {
        GlobPattern { id: self.id, regexp: self.regexp.clone() }
    }
}

/// A named, ordered list of pattern references.
#[derive(Debug)]
pub struct GlobFilter {
    pub id: DbId,
    pub name: String,
}

impl GlobFilter {
    pub fn table_name() -> (r: &'static str)
        ensures
            r@ == glob_filters_table(),
    {
        let r = "glob_filters";
        proof {
            reveal_strlit("glob_filters");
            assert(r@ =~= glob_filters_table());
        }
        r
    }
}

impl Clone for GlobFilter {
    fn clone(&self) -> (r: Self)
        ensures
            r == *self,
    {
        GlobFilter { id: self.id, name: self.name.clone() }
    }
}

/// Places a pattern in a filter, with a polarity and a position; lower
/// positions are evaluated first.
#[derive(Debug, Clone, Copy, PartialEq, Eq, Structural)]
pub struct GlobFilterToPattern {
    pub id: DbId,
    pub glob_filter_id: DbId,
    pub glob_pattern_id: DbId,
    pub includes: bool,
    pub position: i32,
}

impl GlobFilterToPattern {
    pub fn table_name() -> (r: &'static str)
        ensures
            r@ == glob_filter_to_pattern_table(),
    {
        let r = "glob_filter_to_pattern";
        proof {
            reveal_strlit("glob_filter_to_pattern");
            assert(r@ =~= glob_filter_to_pattern_table());
        }
        r
    }
}

/// A stored key/value setting.
#[derive(Debug)]
pub struct SettingValue {
    pub id: DbId,
    pub key: String,
    pub value: String,
}

pub open spec fn collections_table() -> Seq<char> {
    seq!['c', 'o', 'l', 'l', 'e', 'c', 't', 'i', 'o', 'n', 's']
}

pub open spec fn dir_entries_table() -> Seq<char> {
    seq!['d', 'i', 'r', '_', 'e', 'n', 't', 'r', 'i', 'e', 's']
}

pub open spec fn glob_patterns_table() -> Seq<char> {
    seq!['g', 'l', 'o', 'b', '_', 'p', 'a', 't', 't', 'e', 'r', 'n', 's']
}

pub open spec fn glob_filters_table() -> Seq<char> {
    seq!['g', 'l', 'o', 'b', '_', 'f', 'i', 'l', 't', 'e', 'r', 's']
}

pub open spec fn glob_filter_to_pattern_table() -> Seq<char> {
    seq!['g', 'l', 'o', 'b', '_', 'f', 'i', 'l', 't', 'e', 'r', '_', 't', 'o', '_', 'p', 'a', 't', 't', 'e', 'r', 'n']
}

/// Why a write to the catalogue was refused.
#[derive(Debug, PartialEq, Eq, Structural)]
pub enum DbError {
    /// The row limit is reached, or the identifiers of a table are exhausted.
    Full,
    /// A supplied identifier is below 1, is `i64::MAX`, or is not above every
    /// identifier already in its table.
    BadId { id: DbId },
    /// A hierarchy edge that would not keep the forest well formed: one end is
    /// missing, the parent is no directory or not older than the entry, or the
    /// entry already has a parent.
    BadLink { directory_id: DbId, entry_id: DbId },
    /// Another collection already has this name.
    NameTaken,
    /// A filter refers to a pattern that does not exist.
    FilterToGlobIntegrityError { filter_id: DbId, glob_id: DbId },
}

/// Why a deletion was refused.
#[derive(Debug, PartialEq, Eq, Structural)]
pub enum DeleteError {
    /// A collection's root entry is missing.
    NoRootEntry,
    /// The file deletion path was given a directory.
    NotAfile { id: DbId },
    /// The directory deletion path was given a file.
    NotAdir { id: DbId },
}

/// Issues strictly increasing identifiers, starting after a given last one.
pub struct IdGen {
    next_id: DbId,
}

impl View for IdGen {
    /// The identifier that the next call of `gen_id` returns.
    type V = int;

    closed spec fn view(&self) -> int {
        self.next_id as int
    }
}

impl IdGen {
    /// Pass the largest identifier in use (0 when there is none).
    pub fn new_with_last_id(last_id: DbId) -> (r: IdGen)
        requires
            last_id < i64::MAX,
        ensures
            r@ == last_id + 1,
    {
        IdGen { next_id: last_id + 1 }
    }

    /// Whether another identifier can be issued without leaving `i64`.
    pub fn can_generate(&self) -> (r: bool)
        ensures
            r == (self@ < i64::MAX),
    {
        self.next_id < i64::MAX
    }

    pub fn gen_id(&mut self) -> (id: DbId)
        requires
            old(self)@ < i64::MAX,
        ensures
            id == old(self)@,
            final(self)@ == old(self)@ + 1,
    {
        let result = self.next_id;
        self.next_id = self.next_id + 1;
        result
    }
}

} // verus!
