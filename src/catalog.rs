//! The catalogue: an in-memory relational store of collections, directory
//! entries, hierarchy edges, glob patterns and filters.

use crate::dblayer::{
    collections_table, dir_entries_table, glob_filter_to_pattern_table, glob_filters_table,
    glob_patterns_table, Collection, DbError, DbId, DeleteError, DirEntry, DirLink,
    GlobFilter, GlobFilterToPattern, GlobPattern,
};
use crate::glob_filter::{rules_fit, Filter, FilterItem};
use crate::order::compare_names;
use crate::seq_lemmas::{lemma_filter_members, lemma_filter_pairwise, lemma_filter_step};
use crate::sorting::{is_sorted, sort_rows};
use vstd::prelude::*;

verus! {

/// The tables of a catalogue, and the number of rows it may hold.
pub ghost struct CatalogView {
    pub collections: Seq<Collection>,
    pub entries: Seq<DirEntry>,
    pub links: Seq<DirLink>,
    pub patterns: Seq<GlobPattern>,
    pub filters: Seq<GlobFilter>,
    pub filter_patterns: Seq<GlobFilterToPattern>,
    pub row_limit: nat,
}

/// The names of the tables whose rows carry an identifier.
pub open spec fn is_id_table(name: Seq<char>) -> bool {
    name == collections_table() || name == dir_entries_table() || name == glob_patterns_table()
        || name == glob_filters_table() || name == glob_filter_to_pattern_table()
}

proof fn lemma_table_names_differ()
    ensures
        collections_table() != dir_entries_table(),
        collections_table() != glob_patterns_table(),
        collections_table() != glob_filters_table(),
        collections_table() != glob_filter_to_pattern_table(),
        dir_entries_table() != glob_patterns_table(),
        dir_entries_table() != glob_filters_table(),
        dir_entries_table() != glob_filter_to_pattern_table(),
        glob_patterns_table() != glob_filters_table(),
        glob_patterns_table() != glob_filter_to_pattern_table(),
        glob_filters_table() != glob_filter_to_pattern_table(),
{
    assert(collections_table()[0] != dir_entries_table()[0]);
    assert(collections_table()[0] != glob_patterns_table()[0]);
    assert(collections_table()[0] != glob_filters_table()[0]);
    assert(collections_table()[0] != glob_filter_to_pattern_table()[0]);
    assert(dir_entries_table()[0] != glob_patterns_table()[0]);
    assert(dir_entries_table()[0] != glob_filters_table()[0]);
    assert(dir_entries_table()[0] != glob_filter_to_pattern_table()[0]);
    assert(glob_patterns_table()[5] != glob_filters_table()[5]);
    assert(glob_patterns_table()[5] != glob_filter_to_pattern_table()[5]);
    assert(glob_filters_table().len() != glob_filter_to_pattern_table().len());
}

/// Some rule names pattern `i`.
pub open spec fn pattern_used(items: Seq<FilterItem>, i: int) -> bool {
    exists|k: int| 0 <= k < items.len() && (#[trigger] items[k]).pattern_index == i
}

/// Identifiers that are valid (between 1 and `i64::MAX - 1`) and strictly ascending.
pub open spec fn ascending_ids(ids: Seq<DbId>) -> bool {
    &&& forall|i: int| 0 <= i < ids.len() ==> 1 <= #[trigger] ids[i] < i64::MAX
    &&& forall|i: int, j: int| 0 <= i < j < ids.len() ==> #[trigger] ids[i] < #[trigger] ids[j]
}

/// The largest identifier of an ascending sequence, 0 when it is empty.
pub open spec fn last_id(ids: Seq<DbId>) -> DbId {
    if ids.len() == 0 {
        0
    } else {
        ids.last()
    }
}

impl CatalogView {
    pub open spec fn entry_ids(self) -> Seq<DbId> {
        self.entries.map_values(|e: DirEntry| e.id)
    }

    pub open spec fn collection_ids(self) -> Seq<DbId> {
        self.collections.map_values(|c: Collection| c.id)
    }

    pub open spec fn pattern_ids(self) -> Seq<DbId> {
        self.patterns.map_values(|p: GlobPattern| p.id)
    }

    pub open spec fn filter_ids(self) -> Seq<DbId> {
        self.filters.map_values(|f: GlobFilter| f.id)
    }

    pub open spec fn filter_pattern_ids(self) -> Seq<DbId> {
        self.filter_patterns.map_values(|f: GlobFilterToPattern| f.id)
    }

    pub open spec fn rows(self) -> nat {
        self.collections.len() + self.entries.len() + self.links.len() + self.patterns.len()
            + self.filters.len() + self.filter_patterns.len()
    }

    /// Another row can be written.
    pub open spec fn has_room(self) -> bool {
        self.rows() < self.row_limit
    }

    pub open spec fn has_entry(self, id: DbId) -> bool {
        exists|i: int| 0 <= i < self.entries.len() && (#[trigger] self.entries[i]).id == id
    }

    pub open spec fn is_dir_entry(self, id: DbId) -> bool {
        exists|i: int|
            0 <= i < self.entries.len() && (#[trigger] self.entries[i]).id == id
                && self.entries[i].is_dir
    }

    /// `id` has a parent edge.
    pub open spec fn has_parent(self, id: DbId) -> bool {
        exists|k: int| 0 <= k < self.links.len() && (#[trigger] self.links[k]).entry_id == id
    }

    /// The number of parent edges of `id`.
    pub open spec fn parent_edge_count(self, id: DbId) -> nat {
        self.links.filter(|l: DirLink| l.entry_id == id).len()
    }

    /// The directory that holds `id`, if any.
    pub open spec fn parent_of(self, id: DbId) -> Option<DbId> {
        if self.has_parent(id) {
            let k = choose|k: int| 0 <= k < self.links.len() && (#[trigger] self.links[k]).entry_id == id;
            Some(self.links[k].directory_id)
        } else {
            None
        }
    }

    /// `id` is `root` or lies, at any depth, inside `root`.
    pub open spec fn in_subtree(self, root: DbId, id: DbId) -> bool
        decreases id - root,
    {
        if id == root {
            true
        } else if id < root {
            false
        } else {
            match self.parent_of(id) {
                Some(p) => if root <= p && p < id {
                    self.in_subtree(root, p)
                } else {
                    false
                },
                None => false,
            }
        }
    }

    /// A hierarchy edge from `directory_id` to `entry_id` may be added.
    pub open spec fn link_allowed(self, directory_id: DbId, entry_id: DbId) -> bool {
        &&& self.has_entry(entry_id)
        &&& self.is_dir_entry(directory_id)
        &&& directory_id < entry_id
        &&& !self.has_parent(entry_id)
    }

    pub open spec fn has_collection_named(self, name: Seq<char>) -> bool {
        exists|i: int| 0 <= i < self.collections.len() && (#[trigger] self.collections[i]).coll_name@ == name
    }

    /// A collection can be given the next identifier.
    pub open spec fn collection_id_left(self) -> bool {
        last_id(self.collection_ids()) + 1 < i64::MAX
    }

    /// The collections whose stored path is `fs_path`.
    pub open spec fn collections_at(self, fs_path: Seq<char>) -> Seq<Collection> {
        self.collections.filter(|c: Collection| c.fs_path@ == fs_path)
    }

    /// The entry with identifier `id` (meaningful when there is one).
    pub open spec fn entry_with_id(self, id: DbId) -> DirEntry {
        self.entries[choose|i: int| 0 <= i < self.entries.len() && (#[trigger] self.entries[i]).id == id]
    }

    /// The entries that the edges of directory `parent` name.
    pub open spec fn children_of(self, parent: DbId) -> Seq<DirEntry> {
        self.links.filter(|l: DirLink| l.directory_id == parent).map_values(
            |l: DirLink| self.entry_with_id(l.entry_id),
        )
    }

    /// The catalogue without the entries of the subtree at `root` and without
    /// every edge that names one of them.
    pub open spec fn without_subtree(self, root: DbId) -> CatalogView {
        CatalogView {
            entries: self.entries.filter(|e: DirEntry| !self.in_subtree(root, e.id)),
            links: self.links.filter(
                |l: DirLink| !self.in_subtree(root, l.entry_id) && !self.in_subtree(root, l.directory_id),
            ),
            ..self
        }
    }

    /// The catalogue without the collection rows that carry identifier `id`.
    pub open spec fn without_collection(self, id: DbId) -> CatalogView {
        CatalogView { collections: self.collections.filter(|c: Collection| c.id != id), ..self }
    }

    pub open spec fn has_pattern(self, id: DbId) -> bool {
        exists|i: int| 0 <= i < self.patterns.len() && (#[trigger] self.patterns[i]).id == id
    }

    /// The text of the pattern with identifier `id` (meaningful when there is one).
    pub open spec fn pattern_text(self, id: DbId) -> Seq<char> {
        self.patterns[choose|i: int| 0 <= i < self.patterns.len() && (#[trigger] self.patterns[i]).id == id].regexp@
    }

    /// The pattern references of filter `filter_id`.
    pub open spec fn filter_rows(self, filter_id: DbId) -> Seq<GlobFilterToPattern> {
        self.filter_patterns.filter(|r: GlobFilterToPattern| r.glob_filter_id == filter_id)
    }

    /// A reference of filter `filter_id` names pattern `glob_id`.
    pub open spec fn filter_references(self, filter_id: DbId, glob_id: DbId) -> bool {
        exists|i: int|
            0 <= i < self.filter_patterns.len() && (#[trigger] self.filter_patterns[i]).glob_filter_id
                == filter_id && self.filter_patterns[i].glob_pattern_id == glob_id
    }

    /// A reference of filter `filter_id` names a pattern that does not exist.
    pub open spec fn filter_broken(self, filter_id: DbId) -> bool {
        exists|i: int|
            0 <= i < self.filter_patterns.len() && (#[trigger] self.filter_patterns[i]).glob_filter_id
                == filter_id && !self.has_pattern(self.filter_patterns[i].glob_pattern_id)
    }

    /// `f` is filter `filter_id` resolved: its rules follow the filter's
    /// references in order of position, each with the reference's polarity and
    /// the text of the pattern it names; no pattern text is listed twice.
    pub open spec fn resolves(self, filter_id: DbId, f: Filter) -> bool {
        &&& f.wf()
        &&& forall|i: int, j: int| 0 <= i < j < f.patterns@.len() ==> f.patterns@[i]@ != f.patterns@[j]@
        &&& forall|i: int| 0 <= i < f.patterns@.len() ==> #[trigger] pattern_used(f.items@, i)
        &&& exists|rows: Seq<GlobFilterToPattern>| {
            &&& is_sorted(rows)
            &&& rows.to_multiset() == self.filter_rows(filter_id).to_multiset()
            &&& f.items@.len() == rows.len()
            &&& forall|k: int|
                0 <= k < rows.len() ==> {
                    &&& (#[trigger] f.items@[k]).includes == rows[k].includes
                    &&& f.patterns@[f.items@[k].pattern_index as int]@ == self.pattern_text(
                        rows[k].glob_pattern_id,
                    )
                }
        }
    }

    /// The invariant of every catalogue.
    pub open spec fn wf(self) -> bool {
        &&& self.rows() <= self.row_limit
        &&& self.row_limit <= usize::MAX
        &&& ascending_ids(self.entry_ids())
        &&& ascending_ids(self.collection_ids())
        &&& ascending_ids(self.pattern_ids())
        &&& ascending_ids(self.filter_ids())
        &&& ascending_ids(self.filter_pattern_ids())
        &&& forall|k: int|
            0 <= k < self.links.len() ==> {
                let l = #[trigger] self.links[k];
                &&& self.has_entry(l.entry_id)
                &&& self.is_dir_entry(l.directory_id)
                &&& l.directory_id < l.entry_id
            }
        &&& forall|a: int, b: int|
            0 <= a < b < self.links.len() ==> (#[trigger] self.links[a]).entry_id
                < (#[trigger] self.links[b]).entry_id
        &&& forall|a: int, b: int|
            0 <= a < b < self.collections.len() ==> (#[trigger] self.collections[a]).coll_name@
                != (#[trigger] self.collections[b]).coll_name@
    }
}

/// A catalogue: its tables and its row limit.
pub struct Catalog {
    collections: Vec<Collection>,
    entries: Vec<DirEntry>,
    links: Vec<DirLink>,
    patterns: Vec<GlobPattern>,
    filters: Vec<GlobFilter>,
    filter_patterns: Vec<GlobFilterToPattern>,
    row_limit: usize,
}

impl View for Catalog {
    type V = CatalogView;

    closed spec fn view(&self) -> CatalogView {
        CatalogView {
            collections: self.collections@,
            entries: self.entries@,
            links: self.links@,
            patterns: self.patterns@,
            filters: self.filters@,
            filter_patterns: self.filter_patterns@,
            row_limit: self.row_limit as nat,
        }
    }
}

/// An edge for an entry that had no parent makes that edge's directory the
/// entry's parent and leaves the parent of every other entry as it was.
pub proof fn lemma_parent_after_link(v: CatalogView, w: CatalogView, l: DirLink, id: DbId)
    requires
        v.wf(),
        w.links == v.links.push(l),
        !v.has_parent(l.entry_id),
    ensures
        id != l.entry_id ==> w.parent_of(id) == v.parent_of(id) && w.has_parent(id) == v.has_parent(id),
        w.parent_of(l.entry_id) == Some(l.directory_id),
{
    let n = v.links.len() as int;
    assert(w.links[n] == l);
    assert(w.has_parent(l.entry_id));
    let c = choose|c: int| 0 <= c < w.links.len() && (#[trigger] w.links[c]).entry_id == l.entry_id;
    if c < n {
        assert(v.links[c] == w.links[c]);
    }
    if id != l.entry_id {
        if v.has_parent(id) {
            let a = choose|a: int| 0 <= a < v.links.len() && (#[trigger] v.links[a]).entry_id == id;
            assert(w.links[a] == v.links[a]);
            assert(w.has_parent(id));
            let b = choose|b: int| 0 <= b < w.links.len() && (#[trigger] w.links[b]).entry_id == id;
            assert(b < n);
            assert(w.links[b] == v.links[b]);
            if a != b {
                if a < b {
                    assert(v.links[a].entry_id != v.links[b].entry_id);
                } else {
                    assert(v.links[b].entry_id != v.links[a].entry_id);
                }
            }
        } else {
            if w.has_parent(id) {
                let b = choose|b: int| 0 <= b < w.links.len() && (#[trigger] w.links[b]).entry_id == id;
                assert(b < n);
                assert(w.links[b] == v.links[b]);
            }
        }
    }
}

/// An edge for an entry that had no parent leaves `in_subtree` as it was for
/// every identifier below that entry's.
pub proof fn lemma_in_subtree_after_link(v: CatalogView, w: CatalogView, l: DirLink, root: DbId, id: DbId)
    requires
        v.wf(),
        w.links == v.links.push(l),
        !v.has_parent(l.entry_id),
        id < l.entry_id,
    ensures
        w.in_subtree(root, id) == v.in_subtree(root, id),
    decreases id - root,
{
    lemma_parent_after_link(v, w, l, id);
    if v.has_parent(id) {
        let p = v.parent_of(id).unwrap();
        if root <= p && p < id {
            lemma_in_subtree_after_link(v, w, l, root, p);
        }
    }
}

/// In a well-formed catalogue an entry has one parent edge when it has a
/// parent, and none otherwise.
pub proof fn lemma_parent_edge_count(v: CatalogView, id: DbId)
    requires
        v.wf(),
    ensures
        v.has_parent(id) ==> v.parent_edge_count(id) == 1,
        !v.has_parent(id) ==> v.parent_edge_count(id) == 0,
{
    let pred = |l: DirLink| l.entry_id == id;
    lemma_filter_members(v.links, pred);
    broadcast use vstd::seq_lib::group_filter_ensures;
    let f = v.links.filter(pred);
    if f.len() > 0 {
        let j = choose|j: int| 0 <= j < v.links.len() && #[trigger] f[0] == v.links[j] && pred(v.links[j]);
        assert(v.has_parent(id));
    }
    if f.len() > 1 {
        lemma_filter_pairwise(v.links, pred, |a: DirLink, b: DirLink| a.entry_id != b.entry_id);
        assert(f[0].entry_id != f[1].entry_id);
        assert(pred(f[0]) && pred(f[1]));
    }
    if v.has_parent(id) {
        let k = choose|k: int| 0 <= k < v.links.len() && (#[trigger] v.links[k]).entry_id == id;
        v.links.lemma_filter_contains(pred, k);
    }
}

proof fn lemma_same_entries(a: CatalogView, b: CatalogView)
    requires
        a.entries == b.entries,
    ensures
        forall|id: DbId| #[trigger] a.has_entry(id) == b.has_entry(id),
        forall|id: DbId| #[trigger] a.is_dir_entry(id) == b.is_dir_entry(id),
{
}

impl Catalog {
    /// An empty catalogue that may grow as far as memory allows.
    pub fn new() -> (r: Catalog)
        ensures
            r@.wf(),
            r@.rows() == 0,
            r@.row_limit == usize::MAX,
    {
        Catalog::with_row_limit(usize::MAX)
    }

    /// An empty catalogue that refuses a write once it holds `row_limit` rows.
    pub fn with_row_limit(row_limit: usize) -> (r: Catalog)
        ensures
            r@.wf(),
            r@.rows() == 0,
            r@.row_limit == row_limit,
    {
        Catalog {
            collections: Vec::new(),
            entries: Vec::new(),
            links: Vec::new(),
            patterns: Vec::new(),
            filters: Vec::new(),
            filter_patterns: Vec::new(),
            row_limit,
        }
    }

    pub fn has_room(&self) -> (r: bool)
        requires
            self@.wf(),
        ensures
            r == self@.has_room(),
    {
        let rows = self.collections.len() + self.entries.len() + self.links.len()
            + self.patterns.len() + self.filters.len() + self.filter_patterns.len();
        rows < self.row_limit
    }

    /// The largest directory entry identifier in use, 0 when there is none.
    pub fn max_entry_id(&self) -> (r: DbId)
        requires
            self@.wf(),
        ensures
            r == last_id(self@.entry_ids()),
            0 <= r < i64::MAX,
            forall|i: int| 0 <= i < self@.entries.len() ==> (#[trigger] self@.entries[i]).id <= r,
    {
        if self.entries.len() == 0 {
            0
        } else {
            proof {
                assert(self@.entry_ids()[self@.entries.len() - 1] == self@.entries.last().id);
                assert forall|i: int| 0 <= i < self@.entries.len() implies (
                #[trigger] self@.entries[i]).id <= self@.entries.last().id by {
                    assert(self@.entry_ids()[i] == self@.entries[i].id);
                }
            }
            self.entries[self.entries.len() - 1].id
        }
    }

    /// The position of the entry with identifier `id`.
    fn find_entry(&self, id: DbId) -> (r: Option<usize>)
        requires
            self@.wf(),
        ensures
            match r {
                Some(i) => i < self@.entries.len() && self@.entries[i as int].id == id,
                None => !self@.has_entry(id),
            },
    {
        let ghost ids = self@.entry_ids();
        let mut lo: usize = 0;
        let mut hi: usize = self.entries.len();
        while lo < hi
            invariant
                ids == self@.entry_ids(),
                self@.wf(),
                0 <= lo <= hi <= self@.entries.len(),
                forall|i: int| 0 <= i < lo ==> (#[trigger] self@.entries[i]).id < id,
                forall|i: int| hi <= i < self@.entries.len() ==> (#[trigger] self@.entries[i]).id > id,
            decreases hi - lo,
        {
            let mid = lo + (hi - lo) / 2;
            let m = self.entries[mid].id;
            if m == id {
                return Some(mid);
            } else if m < id {
                proof {
                    assert forall|i: int| 0 <= i < mid + 1 implies (#[trigger] self@.entries[i]).id < id by {
                        if i < mid {
                            assert(ids[i] < ids[mid as int]);
                        }
                    }
                }
                lo = mid + 1;
            } else {
                proof {
                    assert forall|i: int| mid <= i < self@.entries.len() implies (#[trigger] self@.entries[i]).id > id by {
                        if i > mid {
                            assert(ids[mid as int] < ids[i]);
                        }
                    }
                }
                hi = mid;
            }
        }
        None
    }

    /// The entry with identifier `id`, if there is one.
    pub fn dir_entry_by_id(&self, id: DbId) -> (r: Option<DirEntry>)
        requires
            self@.wf(),
        ensures
            r.is_some() <==> self@.has_entry(id),
            r.is_some() ==> self@.entries.contains(r.unwrap()) && r.unwrap().id == id,
    {
        match self.find_entry(id) {
            Some(i) => Some(self.entries[i].clone()),
            None => None,
        }
    }

    /// Whether the entry `id` exists and is a directory.
    fn entry_is_dir(&self, id: DbId) -> (r: bool)
        requires
            self@.wf(),
        ensures
            r == self@.is_dir_entry(id),
    {
        match self.find_entry(id) {
            Some(i) => {
                proof {
                    if self@.is_dir_entry(id) {
                        let j = choose|j: int| 0 <= j < self@.entries.len() && (#[trigger] self@.entries[j]).id == id && self@.entries[j].is_dir;
                        if j != i {
                            if j < i {
                                assert(self@.entry_ids()[j] < self@.entry_ids()[i as int]);
                            } else {
                                assert(self@.entry_ids()[i as int] < self@.entry_ids()[j]);
                            }
                        }
                    }
                }
                self.entries[i].is_dir
            },
            None => false,
        }
    }

    /// Binary search of the edges by entry: the position of the parent edge of
    /// `id`, or the position where that edge would go.
    fn search_links(&self, id: DbId) -> (r: Result<usize, usize>)
        requires
            self@.wf(),
        ensures
            match r {
                Ok(k) => k < self@.links.len() && self@.links[k as int].entry_id == id,
                Err(p) => {
                    &&& p <= self@.links.len()
                    &&& forall|k: int| 0 <= k < p ==> (#[trigger] self@.links[k]).entry_id < id
                    &&& forall|k: int| p <= k < self@.links.len() ==> (#[trigger] self@.links[k]).entry_id > id
                },
            },
    {
        let mut lo: usize = 0;
        let mut hi: usize = self.links.len();
        while lo < hi
            invariant
                self@.wf(),
                0 <= lo <= hi <= self@.links.len(),
                forall|k: int| 0 <= k < lo ==> (#[trigger] self@.links[k]).entry_id < id,
                forall|k: int| hi <= k < self@.links.len() ==> (#[trigger] self@.links[k]).entry_id > id,
            decreases hi - lo,
        {
            let mid = lo + (hi - lo) / 2;
            let m = self.links[mid].entry_id;
            if m == id {
                return Ok(mid);
            } else if m < id {
                proof {
                    assert forall|k: int| 0 <= k < mid + 1 implies (#[trigger] self@.links[k]).entry_id < id by {
                        if k < mid {
                            assert(self@.links[k].entry_id < self@.links[mid as int].entry_id);
                        }
                    }
                }
                lo = mid + 1;
            } else {
                proof {
                    assert forall|k: int| mid <= k < self@.links.len() implies (#[trigger] self@.links[k]).entry_id > id by {
                        if k > mid {
                            assert(self@.links[mid as int].entry_id < self@.links[k].entry_id);
                        }
                    }
                }
                hi = mid;
            }
        }
        Err(lo)
    }

    /// The position of the parent edge of `id`.
    fn find_link(&self, id: DbId) -> (r: Option<usize>)
        requires
            self@.wf(),
        ensures
            match r {
                Some(k) => k < self@.links.len() && self@.links[k as int].entry_id == id
                    && self@.parent_of(id) == Some(self@.links[k as int].directory_id),
                None => !self@.has_parent(id) && self@.parent_of(id).is_none(),
            },
    {
        match self.search_links(id) {
            Ok(k) => {
                proof {
                    let c = choose|c: int| 0 <= c < self@.links.len() && (#[trigger] self@.links[c]).entry_id == id;
                    if c != k {
                        if c < k {
                            assert(self@.links[c].entry_id < self@.links[k as int].entry_id);
                        } else {
                            assert(self@.links[k as int].entry_id < self@.links[c].entry_id);
                        }
                    }
                }
                Some(k)
            },
            Err(_) => None,
        }
    }

    /// Writes a directory entry with the identifier it carries.
    pub fn create_dir_entry(&mut self, entry: &DirEntry) -> (r: Result<(), DbError>)
        requires
            old(self)@.wf(),
        ensures
            final(self)@.wf(),
            r.is_ok() <==> old(self)@.has_room() && last_id(old(self)@.entry_ids()) < entry.id < i64::MAX,
            r == Err::<(), DbError>(DbError::Full) <==> !old(self)@.has_room(),
            r == Err::<(), DbError>(DbError::BadId { id: entry.id }) <==> old(self)@.has_room() && !(last_id(old(self)@.entry_ids()) < entry.id < i64::MAX),
            r.is_ok() ==> final(self)@ == (CatalogView { entries: old(self)@.entries.push(*entry), ..old(self)@ }),
            r.is_err() ==> final(self)@ == old(self)@,
    {
        if !self.has_room() {
            return Err(DbError::Full);
        }
        let last = self.max_entry_id();
        if !(last < entry.id && entry.id < i64::MAX) {
            return Err(DbError::BadId { id: entry.id });
        }
        let ghost before = self@;
        self.entries.push(entry.clone());
        proof {
            let ids = self@.entry_ids();
            assert(ids =~= before.entry_ids().push(entry.id));
            assert forall|k: int| 0 <= k < self@.links.len() implies ({
                let l = #[trigger] self@.links[k];
                &&& self@.has_entry(l.entry_id)
                &&& self@.is_dir_entry(l.directory_id)
                &&& l.directory_id < l.entry_id
            }) by {
                let l = self@.links[k];
                assert(before.links[k] == l);
                let i = choose|i: int| 0 <= i < before.entries.len() && (#[trigger] before.entries[i]).id == l.entry_id;
                assert(self@.entries[i] == before.entries[i]);
                let j = choose|j: int| 0 <= j < before.entries.len() && (#[trigger] before.entries[j]).id == l.directory_id && before.entries[j].is_dir;
                assert(self@.entries[j] == before.entries[j]);
            }
            if before.entries.len() > 0 {
                assert(before.entry_ids()[before.entries.len() - 1] == last);
            }
        }
        Ok(())
    }

    /// Records that `entry_id` lies directly inside the directory `parent_id`.
    /// Edges are kept in the order of their entries' identifiers.
    pub fn map_dir_entry_to_parent_dir(&mut self, entry_id: DbId, parent_id: DbId) -> (r: Result<(), DbError>)
        requires
            old(self)@.wf(),
        ensures
            final(self)@.wf(),
            r.is_ok() <==> old(self)@.has_room() && old(self)@.link_allowed(parent_id, entry_id),
            r == Err::<(), DbError>(DbError::Full) <==> !old(self)@.has_room(),
            r == Err::<(), DbError>(DbError::BadLink { directory_id: parent_id, entry_id })
                <==> old(self)@.has_room() && !old(self)@.link_allowed(parent_id, entry_id),
            r.is_ok() ==> exists|p: int|
                0 <= p <= old(self)@.links.len() && final(self)@ == (CatalogView {
                    links: #[trigger] old(self)@.links.insert(p, DirLink { directory_id: parent_id, entry_id }),
                    ..old(self)@
                }),
            r.is_ok() && (forall|k: int| 0 <= k < old(self)@.links.len() ==> (#[trigger] old(self)@.links[k]).entry_id < entry_id)
                ==> final(self)@ == (CatalogView {
                    links: old(self)@.links.push(DirLink { directory_id: parent_id, entry_id }),
                    ..old(self)@
                }),
            r.is_err() ==> final(self)@ == old(self)@,
    {
        if !self.has_room() {
            return Err(DbError::Full);
        }
        let found = self.find_entry(entry_id);
        let exists = found.is_some();
        let place = self.search_links(entry_id);
        let p = match place {
            Ok(_) => {
                proof {
                    assert(self@.has_parent(entry_id));
                }
                return Err(DbError::BadLink { directory_id: parent_id, entry_id });
            },
            Err(p) => p,
        };
        if !(exists && self.entry_is_dir(parent_id) && parent_id < entry_id) {
            return Err(DbError::BadLink { directory_id: parent_id, entry_id });
        }
        let l = DirLink { directory_id: parent_id, entry_id };
        let ghost before = self@;
        self.links.insert(p, l);
        proof {
            lemma_same_entries(self@, before);
            assert(self@.links == before.links.insert(p as int, l));
            assert(self@ == (CatalogView { links: before.links.insert(p as int, l), ..before }));
            assert forall|a: int, b: int| 0 <= a < b < self@.links.len() implies (#[trigger] self@.links[a]).entry_id
                < (#[trigger] self@.links[b]).entry_id by {
                if b < p {
                } else if b == p {
                    assert(self@.links[a] == before.links[a]);
                } else if a < p {
                    assert(self@.links[a] == before.links[a]);
                    assert(self@.links[b] == before.links[b - 1]);
                } else if a == p {
                    assert(self@.links[b] == before.links[b - 1]);
                } else {
                    assert(self@.links[a] == before.links[a - 1]);
                    assert(self@.links[b] == before.links[b - 1]);
                }
            }
            assert forall|k: int| 0 <= k < self@.links.len() implies ({
                let l = #[trigger] self@.links[k];
                &&& self@.has_entry(l.entry_id)
                &&& self@.is_dir_entry(l.directory_id)
                &&& l.directory_id < l.entry_id
            }) by {
                if k < p {
                    assert(self@.links[k] == before.links[k]);
                } else if k > p {
                    assert(self@.links[k] == before.links[k - 1]);
                } else {
                    let i = found.unwrap() as int;
                    assert(self@.entries[i].id == entry_id);
                }
            }
            if forall|k: int| 0 <= k < before.links.len() ==> (#[trigger] before.links[k]).entry_id < entry_id {
                if p < before.links.len() {
                    assert(before.links[p as int].entry_id < entry_id);
                }
                assert(before.links.insert(p as int, l) =~= before.links.push(l));
            }
        }
        Ok(())
    }

    /// The position of the collection named `name`.
    fn find_collection_named(&self, name: &str) -> (r: Option<usize>)
        requires
            self@.wf(),
        ensures
            match r {
                Some(i) => i < self@.collections.len() && self@.collections[i as int].coll_name@ == name@,
                None => !self@.has_collection_named(name@),
            },
    {
        let mut i: usize = 0;
        while i < self.collections.len()
            invariant
                0 <= i <= self@.collections.len(),
                forall|j: int| 0 <= j < i ==> (#[trigger] self@.collections[j]).coll_name@ != name@,
            decreases self@.collections.len() - i,
        {
            if compare_names(self.collections[i].coll_name.as_str(), name) == 0 {
                return Some(i);
            }
            i = i + 1;
        }
        None
    }

    /// The largest identifier of the table named `table_name` (0 when it is empty).
    pub fn max_id(&self, table_name: &str) -> (r: DbId)
        requires
            self@.wf(),
            is_id_table(table_name@),
        ensures
            table_name@ == collections_table() ==> r == last_id(self@.collection_ids()),
            table_name@ == dir_entries_table() ==> r == last_id(self@.entry_ids()),
            table_name@ == glob_patterns_table() ==> r == last_id(self@.pattern_ids()),
            table_name@ == glob_filters_table() ==> r == last_id(self@.filter_ids()),
            table_name@ == glob_filter_to_pattern_table() ==> r == last_id(self@.filter_pattern_ids()),
    {
        proof {
            lemma_table_names_differ();
        }
        if compare_names(table_name, Collection::table_name()) == 0 {
            self.max_collection_id()
        } else if compare_names(table_name, DirEntry::table_name()) == 0 {
            self.max_entry_id()
        } else if compare_names(table_name, GlobPattern::table_name()) == 0 {
            let n = self.patterns.len();
            if n == 0 {
                0
            } else {
                proof {
                    assert(self@.pattern_ids()[n - 1] == self@.patterns[n - 1].id);
                }
                self.patterns[n - 1].id
            }
        } else if compare_names(table_name, GlobFilter::table_name()) == 0 {
            let n = self.filters.len();
            if n == 0 {
                0
            } else {
                proof {
                    assert(self@.filter_ids()[n - 1] == self@.filters[n - 1].id);
                }
                self.filters[n - 1].id
            }
        } else {
            let n = self.filter_patterns.len();
            if n == 0 {
                0
            } else {
                proof {
                    assert(self@.filter_pattern_ids()[n - 1] == self@.filter_patterns[n - 1].id);
                }
                self.filter_patterns[n - 1].id
            }
        }
    }

    fn max_collection_id(&self) -> (r: DbId)
        requires
            self@.wf(),
        ensures
            r == last_id(self@.collection_ids()),
            0 <= r < i64::MAX,
    {
        if self.collections.len() == 0 {
            0
        } else {
            proof {
                assert(self@.collection_ids()[self@.collections.len() - 1] == self@.collections.last().id);
            }
            self.collections[self.collections.len() - 1].id
        }
    }

    /// Adds a collection under the next collection identifier.
    pub fn create_collection(
        &mut self,
        coll_name: &str,
        fs_path: &str,
        root_id: DbId,
        glob_filter_id: DbId,
    ) -> (r: Result<Collection, DbError>)
        requires
            old(self)@.wf(),
        ensures
            final(self)@.wf(),
            r.is_ok() <==> old(self)@.has_room() && old(self)@.collection_id_left()
                && !old(self)@.has_collection_named(coll_name@),
            r matches Err(DbError::Full) <==> !(old(self)@.has_room() && old(self)@.collection_id_left()),
            r matches Err(DbError::NameTaken) <==> old(self)@.has_room() && old(self)@.collection_id_left()
                && old(self)@.has_collection_named(coll_name@),
            r.is_ok() ==> {
                let c = r.unwrap();
                &&& c.id == last_id(old(self)@.collection_ids()) + 1
                &&& c.coll_name@ == coll_name@
                &&& c.fs_path@ == fs_path@
                &&& c.root_id == root_id
                &&& c.glob_filter_id == glob_filter_id
                &&& final(self)@ == (CatalogView { collections: old(self)@.collections.push(c), ..old(self)@ })
            },
            r.is_err() ==> final(self)@ == old(self)@,
    {
        if !self.has_room() {
            return Err(DbError::Full);
        }
        let last = self.max_collection_id();
        if last + 1 >= i64::MAX {
            return Err(DbError::Full);
        }
        if self.find_collection_named(coll_name).is_some() {
            return Err(DbError::NameTaken);
        }
        let c = Collection {
            id: last + 1,
            coll_name: coll_name.to_owned(),
            fs_path: fs_path.to_owned(),
            root_id,
            glob_filter_id,
        };
        let ghost before = self@;
        self.collections.push(c.clone());
        proof {
            lemma_same_entries(self@, before);
            assert(self@.collection_ids() =~= before.collection_ids().push(c.id));
            if before.collections.len() > 0 {
                assert(before.collection_ids()[before.collections.len() - 1] == last);
            }
            assert forall|a: int, b: int| 0 <= a < b < self@.collections.len() implies (
            #[trigger] self@.collections[a]).coll_name@ != (#[trigger] self@.collections[b]).coll_name@ by {
                if b == before.collections.len() {
                    assert(self@.collections[a] == before.collections[a]);
                }
            }
        }
        Ok(c)
    }

    /// The collection named `name`, if there is one.
    pub fn collection_by_name(&self, name: &str) -> (r: Option<Collection>)
        requires
            self@.wf(),
        ensures
            r.is_some() <==> self@.has_collection_named(name@),
            r.is_some() ==> self@.collections.contains(r.unwrap()) && r.unwrap().coll_name@ == name@,
    {
        match self.find_collection_named(name) {
            Some(i) => Some(self.collections[i].clone()),
            None => None,
        }
    }

    /// All collections, ordered by name.
    pub fn enum_collections(&self) -> (r: Vec<Collection>)
        requires
            self@.wf(),
        ensures
            is_sorted(r@),
            r@.to_multiset() == self@.collections.to_multiset(),
    {
        let all = self.collections.clone();
        proof {
            assert(all@ =~= self@.collections);
        }
        sort_rows(all)
    }

    /// The collections stored under the path `fs_path`, ordered by name.
    pub fn collections_by_fs_path(&self, fs_path: &str) -> (r: Vec<Collection>)
        requires
            self@.wf(),
        ensures
            is_sorted(r@),
            r@.to_multiset() == self@.collections_at(fs_path@).to_multiset(),
    {
        let ghost pred = |c: Collection| c.fs_path@ == fs_path@;
        let mut found: Vec<Collection> = Vec::new();
        let mut i: usize = 0;
        while i < self.collections.len()
            invariant
                0 <= i <= self@.collections.len(),
                pred == (|c: Collection| c.fs_path@ == fs_path@),
                found@ == self@.collections.take(i as int).filter(pred),
            decreases self@.collections.len() - i,
        {
            proof {
                lemma_filter_step(self@.collections, i as int, pred);
            }
            if compare_names(self.collections[i].fs_path.as_str(), fs_path) == 0 {
                found.push(self.collections[i].clone());
            }
            i = i + 1;
        }
        proof {
            assert(self@.collections.take(i as int) =~= self@.collections);
        }
        sort_rows(found)
    }


    proof fn lemma_entry_with_id(&self, i: int)
        requires
            self@.wf(),
            0 <= i < self@.entries.len(),
        ensures
            self@.entry_with_id(self@.entries[i].id) == self@.entries[i],
    {
        let id = self@.entries[i].id;
        let c = choose|c: int| 0 <= c < self@.entries.len() && (#[trigger] self@.entries[c]).id == id;
        if c != i {
            if c < i {
                assert(self@.entry_ids()[c] < self@.entry_ids()[i]);
            } else {
                assert(self@.entry_ids()[i] < self@.entry_ids()[c]);
            }
        }
    }

    /// The entries directly inside directory `parent_id`, ordered by name,
    /// directories before files of the same name.
    pub fn enum_dir_entries(&self, parent_id: DbId) -> (r: Vec<DirEntry>)
        requires
            self@.wf(),
        ensures
            is_sorted(r@),
            r@.to_multiset() == self@.children_of(parent_id).to_multiset(),
    {
        let ghost pred = |l: DirLink| l.directory_id == parent_id;
        let ghost f = |l: DirLink| self@.entry_with_id(l.entry_id);
        let mut kids: Vec<DirEntry> = Vec::new();
        let mut k: usize = 0;
        while k < self.links.len()
            invariant
                self@.wf(),
                0 <= k <= self@.links.len(),
                pred == (|l: DirLink| l.directory_id == parent_id),
                f == (|l: DirLink| self@.entry_with_id(l.entry_id)),
                kids@ == self@.links.take(k as int).filter(pred).map_values(f),
            decreases self@.links.len() - k,
        {
            proof {
                lemma_filter_step(self@.links, k as int, pred);
            }
            let l = self.links[k];
            if l.directory_id == parent_id {
                let found = self.find_entry(l.entry_id);
                proof {
                    assert(self@.has_entry(l.entry_id));
                }
                let i = found.unwrap();
                proof {
                    self.lemma_entry_with_id(i as int);
                    let t = self@.links.take(k as int).filter(pred);
                    assert(t.push(l).map_values(f) =~= t.map_values(f).push(f(l)));
                }
                kids.push(self.entries[i].clone());
            }
            k = k + 1;
        }
        proof {
            assert(self@.links.take(k as int) =~= self@.links);
        }
        sort_rows(kids)
    }

    /// For each entry, the position of its parent entry.
    fn parent_positions(&self) -> (r: Vec<Option<usize>>)
        requires
            self@.wf(),
        ensures
            r@.len() == self@.entries.len(),
            forall|x: int|
                0 <= x < self@.entries.len() ==> match #[trigger] r@[x] {
                    Some(d) => d < self@.entries.len() && self@.parent_of(self@.entries[x].id) == Some(
                        self@.entries[d as int].id,
                    ),
                    None => self@.parent_of(self@.entries[x].id).is_none(),
                },
    {
        let ghost v = self@;
        let n = self.entries.len();
        let mut r: Vec<Option<usize>> = Vec::new();
        while r.len() < n
            invariant
                r@.len() <= n,
                n == v.entries.len(),
                forall|x: int| 0 <= x < r@.len() ==> (#[trigger] r@[x]).is_none(),
            decreases n - r@.len(),
        {
            r.push(None);
        }
        let mut k: usize = 0;
        while k < self.links.len()
            invariant
                self@ == v,
                v.wf(),
                n == v.entries.len(),
                r@.len() == n,
                0 <= k <= v.links.len(),
                forall|x: int|
                    0 <= x < n ==> match #[trigger] r@[x] {
                        Some(d) => d < n && v.parent_of(v.entries[x].id) == Some(v.entries[d as int].id),
                        None => forall|q: int| 0 <= q < k ==> v.links[q].entry_id != v.entries[x].id,
                    },
            decreases v.links.len() - k,
        {
            let l = self.links[k];
            let a = self.find_entry(l.entry_id);
            let b = self.find_entry(l.directory_id);
            proof {
                assert(v.links[k as int] == l);
                let jd = choose|jd: int| 0 <= jd < v.entries.len() && (#[trigger] v.entries[jd]).id == l.directory_id && v.entries[jd].is_dir;
                assert(v.has_entry(l.directory_id));
            }
            let ea = a.unwrap();
            let eb = b.unwrap();
            proof {
                assert(v.has_parent(l.entry_id));
                let c = choose|c: int| 0 <= c < v.links.len() && (#[trigger] v.links[c]).entry_id == l.entry_id;
                if c != k {
                    if c < k {
                        assert(v.links[c].entry_id != v.links[k as int].entry_id);
                    } else {
                        assert(v.links[k as int].entry_id != v.links[c].entry_id);
                    }
                }
            }
            r.set(ea, Some(eb));
            proof {
                assert forall|x: int| 0 <= x < n implies match #[trigger] r@[x] {
                    Some(d) => d < n && v.parent_of(v.entries[x].id) == Some(v.entries[d as int].id),
                    None => forall|q: int| 0 <= q < k + 1 ==> v.links[q].entry_id != v.entries[x].id,
                } by {
                    if x != ea {
                        if v.entries[x].id == l.entry_id {
                            if x < ea {
                                assert(v.entry_ids()[x] < v.entry_ids()[ea as int]);
                            } else {
                                assert(v.entry_ids()[ea as int] < v.entry_ids()[x]);
                            }
                        }
                    }
                }
            }
            k = k + 1;
        }
        proof {
            assert forall|x: int| 0 <= x < n implies match #[trigger] r@[x] {
                Some(d) => d < n && v.parent_of(v.entries[x].id) == Some(v.entries[d as int].id),
                None => v.parent_of(v.entries[x].id).is_none(),
            } by {
                if r@[x].is_none() {
                    if v.has_parent(v.entries[x].id) {
                        let c = choose|c: int| 0 <= c < v.links.len() && (#[trigger] v.links[c]).entry_id == v.entries[x].id;
                    }
                }
            }
        }
        r
    }

    /// Removes the entries of the subtree at `root`, and every edge that names one.
    fn remove_subtree(&mut self, root: DbId)
        requires
            old(self)@.wf(),
        ensures
            final(self)@ == old(self)@.without_subtree(root),
            final(self)@.wf(),
    {
        let ghost v = self@;
        let n = self.entries.len();
        let parents = self.parent_positions();
        let mut inside: Vec<bool> = Vec::new();
        let mut i: usize = 0;
        while i < n
            invariant
                self@ == v,
                v.wf(),
                n == v.entries.len(),
                0 <= i <= n,
                inside@.len() == i,
                parents@.len() == n,
                forall|x: int|
                    0 <= x < n ==> match #[trigger] parents@[x] {
                        Some(d) => d < n && v.parent_of(v.entries[x].id) == Some(v.entries[d as int].id),
                        None => v.parent_of(v.entries[x].id).is_none(),
                    },
                forall|j: int| 0 <= j < i ==> inside@[j] == v.in_subtree(root, #[trigger] v.entries[j].id),
            decreases n - i,
        {
            let id = self.entries[i].id;
            let mut here = id == root;
            if !here {
                if let Some(d) = parents[i] {
                    let p = self.entries[d].id;
                    if root <= p && p < id {
                        proof {
                            if d >= i {
                                if d > i {
                                    assert(v.entry_ids()[i as int] < v.entry_ids()[d as int]);
                                }
                            }
                        }
                        here = inside[d];
                    }
                }
            }
            inside.push(here);
            i = i + 1;
        }
        let ghost keep_e = |e: DirEntry| !v.in_subtree(root, e.id);
        let mut kept: Vec<DirEntry> = Vec::new();
        let mut j: usize = 0;
        while j < n
            invariant
                self@ == v,
                v.wf(),
                n == v.entries.len(),
                0 <= j <= n,
                inside@.len() == n,
                forall|x: int| 0 <= x < n ==> inside@[x] == v.in_subtree(root, #[trigger] v.entries[x].id),
                keep_e == (|e: DirEntry| !v.in_subtree(root, e.id)),
                kept@ == v.entries.take(j as int).filter(keep_e),
            decreases n - j,
        {
            proof {
                lemma_filter_step(v.entries, j as int, keep_e);
            }
            if !inside[j] {
                kept.push(self.entries[j].clone());
            }
            j = j + 1;
        }
        let ghost keep_l = |l: DirLink| !v.in_subtree(root, l.entry_id) && !v.in_subtree(root, l.directory_id);
        let mut kept_links: Vec<DirLink> = Vec::new();
        let mut k: usize = 0;
        while k < self.links.len()
            invariant
                self@ == v,
                v.wf(),
                n == v.entries.len(),
                inside@.len() == n,
                forall|x: int| 0 <= x < n ==> inside@[x] == v.in_subtree(root, #[trigger] v.entries[x].id),
                0 <= k <= v.links.len(),
                keep_l == (|l: DirLink| !v.in_subtree(root, l.entry_id) && !v.in_subtree(root, l.directory_id)),
                kept_links@ == v.links.take(k as int).filter(keep_l),
            decreases v.links.len() - k,
        {
            proof {
                lemma_filter_step(v.links, k as int, keep_l);
            }
            let l = self.links[k];
            let a = self.find_entry(l.entry_id);
            let b = self.find_entry(l.directory_id);
            proof {
                assert(v.links[k as int] == l);
                let jd = choose|jd: int| 0 <= jd < v.entries.len() && (#[trigger] v.entries[jd]).id == l.directory_id && v.entries[jd].is_dir;
                assert(v.has_entry(l.directory_id));
            }
            let ia = a.unwrap();
            let ib = b.unwrap();
            if !inside[ia] && !inside[ib] {
                kept_links.push(l);
            }
            k = k + 1;
        }
        proof {
            assert(v.entries.take(n as int) =~= v.entries);
            assert(v.links.take(k as int) =~= v.links);
        }
        self.entries = kept;
        self.links = kept_links;
        proof {
            let w = self@;
            assert(w == v.without_subtree(root));
            broadcast use vstd::seq_lib::group_filter_ensures;
            assert forall|x: int, y: int| 0 <= x < y < v.entries.len() implies v.entries[x].id < v.entries[y].id by {
                assert(v.entry_ids()[x] < v.entry_ids()[y]);
            }
            lemma_filter_pairwise(v.entries, keep_e, |a: DirEntry, b: DirEntry| a.id < b.id);
            lemma_filter_members(v.entries, keep_e);
            lemma_filter_pairwise(v.links, keep_l, |a: DirLink, b: DirLink| a.entry_id < b.entry_id);
            lemma_filter_members(v.links, keep_l);
            assert forall|x: int| 0 <= x < w.entries.len() implies 1 <= #[trigger] w.entry_ids()[x] < i64::MAX by {
                let y = choose|y: int| 0 <= y < v.entries.len() && #[trigger] w.entries[x] == v.entries[y] && keep_e(v.entries[y]);
                assert(v.entry_ids()[y] == v.entries[y].id);
            }
            assert forall|x: int, y: int| 0 <= x < y < w.entries.len() implies #[trigger] w.entry_ids()[x] < #[trigger] w.entry_ids()[y] by {
            }
            assert forall|q: int| 0 <= q < w.links.len() implies ({
                let l = #[trigger] w.links[q];
                &&& w.has_entry(l.entry_id)
                &&& w.is_dir_entry(l.directory_id)
                &&& l.directory_id < l.entry_id
            }) by {
                let l = w.links[q];
                let y = choose|y: int| 0 <= y < v.links.len() && #[trigger] w.links[q] == v.links[y] && keep_l(v.links[y]);
                assert(v.links[y] == l);
                let ie = choose|ie: int| 0 <= ie < v.entries.len() && (#[trigger] v.entries[ie]).id == l.entry_id;
                let id = choose|id: int| 0 <= id < v.entries.len() && (#[trigger] v.entries[id]).id == l.directory_id && v.entries[id].is_dir;
                v.entries.lemma_filter_contains(keep_e, ie);
                v.entries.lemma_filter_contains(keep_e, id);
                let we = choose|we: int| 0 <= we < w.entries.len() && w.entries[we] == v.entries[ie];
                let wd = choose|wd: int| 0 <= wd < w.entries.len() && w.entries[wd] == v.entries[id];
                assert(w.entries[we].id == l.entry_id);
                assert(w.entries[wd].id == l.directory_id && w.entries[wd].is_dir);
            }
        }
    }

    /// Removes a file entry with its edge. Refuses, as a kind mismatch, an
    /// entry flagged as a directory or stored as one. The catalogue holds no
    /// per-file tag, edit-history or mime tables, so there is nothing else of
    /// the file to remove.
    pub fn delete_dir_entry_file(&mut self, entry: &DirEntry) -> (r: Result<(), DeleteError>)
        requires
            old(self)@.wf(),
        ensures
            final(self)@.wf(),
            r == Err::<(), DeleteError>(DeleteError::NotAfile { id: entry.id })
                <==> entry.is_dir || old(self)@.is_dir_entry(entry.id),
            r.is_ok() <==> !entry.is_dir && !old(self)@.is_dir_entry(entry.id),
            r.is_ok() ==> final(self)@ == old(self)@.without_subtree(entry.id),
            r.is_err() ==> final(self)@ == old(self)@,
    {
        if entry.is_dir || self.entry_is_dir(entry.id) {
            return Err(DeleteError::NotAfile { id: entry.id });
        }
        self.remove_subtree(entry.id);
        Ok(())
    }

    /// Removes a directory entry with its whole subtree and every edge that
    /// names one of them. Refuses, as a kind mismatch, an entry flagged as a
    /// file or stored as one.
    pub fn delete_dir_entry_dir(&mut self, entry: &DirEntry) -> (r: Result<(), DeleteError>)
        requires
            old(self)@.wf(),
        ensures
            final(self)@.wf(),
            r == Err::<(), DeleteError>(DeleteError::NotAdir { id: entry.id })
                <==> !entry.is_dir || (old(self)@.has_entry(entry.id) && !old(self)@.is_dir_entry(entry.id)),
            r.is_ok() <==> entry.is_dir && !(old(self)@.has_entry(entry.id) && !old(self)@.is_dir_entry(entry.id)),
            r.is_ok() ==> final(self)@ == old(self)@.without_subtree(entry.id),
            r.is_err() ==> final(self)@ == old(self)@,
    {
        let found = self.find_entry(entry.id);
        if !entry.is_dir || (found.is_some() && !self.entry_is_dir(entry.id)) {
            return Err(DeleteError::NotAdir { id: entry.id });
        }
        self.remove_subtree(entry.id);
        Ok(())
    }

    /// Removes a directory (with its subtree) or a file, as `entry.is_dir` says,
    /// and every edge that names a removed entry. Succeeds exactly when the
    /// stored kind does not contradict `entry.is_dir`.
    pub fn delete_dir_entry(&mut self, entry: &DirEntry) -> (r: Result<(), DeleteError>)
        requires
            old(self)@.wf(),
        ensures
            final(self)@.wf(),
            r.is_ok() <==> (entry.is_dir ==> !(old(self)@.has_entry(entry.id) && !old(self)@.is_dir_entry(entry.id)))
                && (!entry.is_dir ==> !old(self)@.is_dir_entry(entry.id)),
            entry.is_dir ==> (r == Err::<(), DeleteError>(DeleteError::NotAdir { id: entry.id })
                <==> old(self)@.has_entry(entry.id) && !old(self)@.is_dir_entry(entry.id)),
            !entry.is_dir ==> (r == Err::<(), DeleteError>(DeleteError::NotAfile { id: entry.id })
                <==> old(self)@.is_dir_entry(entry.id)),
            r.is_ok() ==> final(self)@ == old(self)@.without_subtree(entry.id),
            r.is_err() ==> final(self)@ == old(self)@,
    {
        if entry.is_dir {
            self.delete_dir_entry_dir(entry)
        } else {
            self.delete_dir_entry_file(entry)
        }
    }

    /// Removes the subtree at the collection's root and then the collection row.
    pub fn delete_collection(&mut self, col: &Collection) -> (r: Result<(), DeleteError>)
        requires
            old(self)@.wf(),
        ensures
            final(self)@.wf(),
            r.is_ok() <==> old(self)@.has_entry(col.root_id),
            r == Err::<(), DeleteError>(DeleteError::NoRootEntry) <==> !old(self)@.has_entry(col.root_id),
            r.is_ok() ==> final(self)@ == old(self)@.without_subtree(col.root_id).without_collection(col.id),
            r.is_err() ==> final(self)@ == old(self)@,
    {
        if self.find_entry(col.root_id).is_none() {
            return Err(DeleteError::NoRootEntry);
        }
        self.remove_subtree(col.root_id);
        let ghost v = self@;
        let ghost keep = |c: Collection| c.id != col.id;
        let mut kept: Vec<Collection> = Vec::new();
        let mut i: usize = 0;
        while i < self.collections.len()
            invariant
                self@ == v,
                0 <= i <= v.collections.len(),
                keep == (|c: Collection| c.id != col.id),
                kept@ == v.collections.take(i as int).filter(keep),
            decreases v.collections.len() - i,
        {
            proof {
                lemma_filter_step(v.collections, i as int, keep);
            }
            if self.collections[i].id != col.id {
                kept.push(self.collections[i].clone());
            }
            i = i + 1;
        }
        proof {
            assert(v.collections.take(i as int) =~= v.collections);
        }
        self.collections = kept;
        proof {
            let w = self@;
            assert(w == v.without_collection(col.id));
            lemma_same_entries(w, v);
            broadcast use vstd::seq_lib::group_filter_ensures;
            assert forall|x: int, y: int| 0 <= x < y < v.collections.len() implies v.collections[x].id < v.collections[y].id by {
                assert(v.collection_ids()[x] < v.collection_ids()[y]);
            }
            lemma_filter_pairwise(v.collections, keep, |a: Collection, b: Collection| a.id < b.id);
            lemma_filter_pairwise(v.collections, keep, |a: Collection, b: Collection| a.coll_name@ != b.coll_name@);
            lemma_filter_members(v.collections, keep);
            assert forall|x: int| 0 <= x < w.collections.len() implies 1 <= #[trigger] w.collection_ids()[x] < i64::MAX by {
                let y = choose|y: int| 0 <= y < v.collections.len() && #[trigger] w.collections[x] == v.collections[y] && keep(v.collections[y]);
                assert(v.collection_ids()[y] == v.collections[y].id);
            }
            assert forall|x: int, y: int| 0 <= x < y < w.collections.len() implies #[trigger] w.collection_ids()[x] < #[trigger] w.collection_ids()[y] by {
            }
        }
        Ok(())
    }


    /// A copy of the whole catalogue.
    fn duplicate(&self) -> (r: Catalog)
        ensures
            r@ == self@,
    {
        let collections = self.collections.clone();
        let entries = self.entries.clone();
        let links = self.links.clone();
        let patterns = self.patterns.clone();
        let filters = self.filters.clone();
        let filter_patterns = self.filter_patterns.clone();
        proof {
            assert(collections@ =~= self.collections@);
            assert(entries@ =~= self.entries@);
            assert(links@ =~= self.links@);
            assert(patterns@ =~= self.patterns@);
            assert(filters@ =~= self.filters@);
            assert(filter_patterns@ =~= self.filter_patterns@);
        }
        Catalog {
            collections,
            entries,
            links,
            patterns,
            filters,
            filter_patterns,
            row_limit: self.row_limit,
        }
    }


    /// Writes a glob pattern with the identifier it carries.
    pub fn create_glob_pattern(&mut self, pattern: &GlobPattern) -> (r: Result<(), DbError>)
        requires
            old(self)@.wf(),
        ensures
            final(self)@.wf(),
            r.is_ok() <==> old(self)@.has_room() && last_id(old(self)@.pattern_ids()) < pattern.id < i64::MAX,
            r == Err::<(), DbError>(DbError::Full) <==> !old(self)@.has_room(),
            r.is_ok() ==> final(self)@ == (CatalogView { patterns: old(self)@.patterns.push(*pattern), ..old(self)@ }),
            r.is_err() ==> final(self)@ == old(self)@,
    {
        if !self.has_room() {
            return Err(DbError::Full);
        }
        let n = self.patterns.len();
        let last = if n == 0 { 0 } else { self.patterns[n - 1].id };
        proof {
            if n > 0 {
                assert(self@.pattern_ids()[n - 1] == last);
            }
        }
        if !(last < pattern.id && pattern.id < i64::MAX) {
            return Err(DbError::BadId { id: pattern.id });
        }
        let ghost before = self@;
        self.patterns.push(pattern.clone());
        proof {
            lemma_same_entries(self@, before);
            assert(self@.pattern_ids() =~= before.pattern_ids().push(pattern.id));
        }
        Ok(())
    }

    /// Writes a glob filter with the identifier it carries.
    pub fn create_glob_filter(&mut self, filter: &GlobFilter) -> (r: Result<(), DbError>)
        requires
            old(self)@.wf(),
        ensures
            final(self)@.wf(),
            r.is_ok() <==> old(self)@.has_room() && last_id(old(self)@.filter_ids()) < filter.id < i64::MAX,
            r == Err::<(), DbError>(DbError::Full) <==> !old(self)@.has_room(),
            r.is_ok() ==> final(self)@ == (CatalogView { filters: old(self)@.filters.push(*filter), ..old(self)@ }),
            r.is_err() ==> final(self)@ == old(self)@,
    {
        if !self.has_room() {
            return Err(DbError::Full);
        }
        let n = self.filters.len();
        let last = if n == 0 { 0 } else { self.filters[n - 1].id };
        proof {
            if n > 0 {
                assert(self@.filter_ids()[n - 1] == last);
            }
        }
        if !(last < filter.id && filter.id < i64::MAX) {
            return Err(DbError::BadId { id: filter.id });
        }
        let ghost before = self@;
        self.filters.push(filter.clone());
        proof {
            lemma_same_entries(self@, before);
            assert(self@.filter_ids() =~= before.filter_ids().push(filter.id));
        }
        Ok(())
    }

    /// Places a pattern in a filter, with the identifier the row carries.
    pub fn create_glob_filter_to_pattern(&mut self, row: &GlobFilterToPattern) -> (r: Result<(), DbError>)
        requires
            old(self)@.wf(),
        ensures
            final(self)@.wf(),
            r.is_ok() <==> old(self)@.has_room() && last_id(old(self)@.filter_pattern_ids()) < row.id < i64::MAX,
            r == Err::<(), DbError>(DbError::Full) <==> !old(self)@.has_room(),
            r.is_ok() ==> final(self)@ == (CatalogView { filter_patterns: old(self)@.filter_patterns.push(*row), ..old(self)@ }),
            r.is_err() ==> final(self)@ == old(self)@,
    {
        if !self.has_room() {
            return Err(DbError::Full);
        }
        let n = self.filter_patterns.len();
        let last = if n == 0 { 0 } else { self.filter_patterns[n - 1].id };
        proof {
            if n > 0 {
                assert(self@.filter_pattern_ids()[n - 1] == last);
            }
        }
        if !(last < row.id && row.id < i64::MAX) {
            return Err(DbError::BadId { id: row.id });
        }
        let ghost before = self@;
        self.filter_patterns.push(*row);
        proof {
            lemma_same_entries(self@, before);
            assert(self@.filter_pattern_ids() =~= before.filter_pattern_ids().push(row.id));
        }
        Ok(())
    }

    /// All glob patterns, ordered by their text.
    pub fn enum_glob_patterns(&self) -> (r: Vec<GlobPattern>)
        requires
            self@.wf(),
        ensures
            is_sorted(r@),
            r@.to_multiset() == self@.patterns.to_multiset(),
    {
        let all = self.patterns.clone();
        proof {
            assert(all@ =~= self@.patterns);
        }
        sort_rows(all)
    }

    /// All glob filters, ordered by name.
    pub fn enum_glob_filters(&self) -> (r: Vec<GlobFilter>)
        requires
            self@.wf(),
        ensures
            is_sorted(r@),
            r@.to_multiset() == self@.filters.to_multiset(),
    {
        let all = self.filters.clone();
        proof {
            assert(all@ =~= self@.filters);
        }
        sort_rows(all)
    }

    /// The pattern references of filter `filter_id`, ordered by position.
    pub fn filter_patterns(&self, filter_id: DbId) -> (r: Vec<GlobFilterToPattern>)
        requires
            self@.wf(),
        ensures
            is_sorted(r@),
            r@.to_multiset() == self@.filter_rows(filter_id).to_multiset(),
    {
        let ghost pred = |r: GlobFilterToPattern| r.glob_filter_id == filter_id;
        let mut found: Vec<GlobFilterToPattern> = Vec::new();
        let mut i: usize = 0;
        while i < self.filter_patterns.len()
            invariant
                0 <= i <= self@.filter_patterns.len(),
                pred == (|r: GlobFilterToPattern| r.glob_filter_id == filter_id),
                found@ == self@.filter_patterns.take(i as int).filter(pred),
            decreases self@.filter_patterns.len() - i,
        {
            proof {
                lemma_filter_step(self@.filter_patterns, i as int, pred);
            }
            if self.filter_patterns[i].glob_filter_id == filter_id {
                found.push(self.filter_patterns[i]);
            }
            i = i + 1;
        }
        proof {
            assert(self@.filter_patterns.take(i as int) =~= self@.filter_patterns);
        }
        sort_rows(found)
    }

    /// The position of the pattern with identifier `id`.
    fn find_pattern(&self, id: DbId) -> (r: Option<usize>)
        requires
            self@.wf(),
        ensures
            match r {
                Some(i) => i < self@.patterns.len() && self@.patterns[i as int].id == id
                    && self@.pattern_text(id) == self@.patterns[i as int].regexp@,
                None => !self@.has_pattern(id),
            },
    {
        let mut i: usize = 0;
        while i < self.patterns.len()
            invariant
                self@.wf(),
                0 <= i <= self@.patterns.len(),
                forall|j: int| 0 <= j < i ==> (#[trigger] self@.patterns[j]).id != id,
            decreases self@.patterns.len() - i,
        {
            if self.patterns[i].id == id {
                proof {
                    let c = choose|c: int| 0 <= c < self@.patterns.len() && (#[trigger] self@.patterns[c]).id == id;
                    if c != i {
                        if c < i {
                        } else {
                            assert(self@.pattern_ids()[i as int] < self@.pattern_ids()[c]);
                        }
                    }
                }
                return Some(i);
            }
            i = i + 1;
        }
        None
    }

    /// Resolves filter `filter_id` into a chain of rules over pattern texts.
    /// Fails with an integrity error naming a missing pattern when one of the
    /// filter's references names a pattern that does not exist.
    pub fn glob_filter_by_id(&self, filter_id: DbId) -> (r: Result<Filter, DbError>)
        requires
            self@.wf(),
        ensures
            r.is_err() <==> self@.filter_broken(filter_id),
            r.is_ok() ==> self@.resolves(filter_id, r.unwrap()),
            r.is_err() ==> (match r {
                Err(DbError::FilterToGlobIntegrityError { filter_id: f, glob_id: g }) => f == filter_id
                    && !self@.has_pattern(g) && self@.filter_references(filter_id, g),
                _ => false,
            }),
    {
        let rows = self.filter_patterns(filter_id);
        let ghost pred = |r: GlobFilterToPattern| r.glob_filter_id == filter_id;
        let ghost fr = self@.filter_patterns.filter(pred);
        proof {
            broadcast use vstd::seq_lib::group_to_multiset_ensures;
            assert(fr == self@.filter_rows(filter_id));
            lemma_filter_members(self@.filter_patterns, pred);
            // every reference in `rows` is one of the filter's
            assert forall|k: int| 0 <= k < rows@.len() implies (#[trigger] rows@[k]).glob_filter_id == filter_id
                && self@.filter_patterns.contains(rows@[k]) by {
                assert(rows@.to_multiset().count(rows@[k]) > 0);
                assert(fr.contains(rows@[k]));
                let j = choose|j: int| 0 <= j < fr.len() && fr[j] == rows@[k];
                let i = choose|i: int| 0 <= i < self@.filter_patterns.len() && #[trigger] fr[j] == self@.filter_patterns[i] && pred(self@.filter_patterns[i]);
                assert(rows@[k] == self@.filter_patterns[i]);
            }
        }
        let mut patterns: Vec<String> = Vec::new();
        let mut items: Vec<FilterItem> = Vec::new();
        let mut k: usize = 0;
        while k < rows.len()
            invariant
                self@.wf(),
                0 <= k <= rows@.len(),
                items@.len() == k,
                rules_fit(items@, patterns@.len()),
                forall|i: int, j: int| 0 <= i < j < patterns@.len() ==> patterns@[i]@ != patterns@[j]@,
                forall|i: int| 0 <= i < patterns@.len() ==> #[trigger] pattern_used(items@, i),
                forall|q: int|
                    0 <= q < k ==> {
                        &&& (#[trigger] items@[q]).includes == rows@[q].includes
                        &&& patterns@[items@[q].pattern_index as int]@ == self@.pattern_text(rows@[q].glob_pattern_id)
                    },
                forall|q: int| 0 <= q < k ==> self@.has_pattern(#[trigger] rows@[q].glob_pattern_id),
                forall|q: int|
                    0 <= q < rows@.len() ==> (#[trigger] rows@[q]).glob_filter_id == filter_id
                        && self@.filter_patterns.contains(rows@[q]),
            decreases rows@.len() - k,
        {
            let row = rows[k];
            let found = self.find_pattern(row.glob_pattern_id);
            if found.is_none() {
                proof {
                    assert(rows@[k as int] == row);
                    let i = choose|i: int| 0 <= i < self@.filter_patterns.len() && self@.filter_patterns[i] == row;
                    assert(self@.filter_patterns[i] == row);
                    assert(self@.filter_references(filter_id, row.glob_pattern_id));
                }
                return Err(DbError::FilterToGlobIntegrityError { filter_id, glob_id: row.glob_pattern_id });
            }
            let pi = found.unwrap();
            let text = &self.patterns[pi].regexp;
            let mut j: usize = 0;
            while j < patterns.len() && compare_names(patterns[j].as_str(), text.as_str()) != 0
                invariant
                    0 <= j <= patterns@.len(),
                    forall|x: int| 0 <= x < j ==> (#[trigger] patterns@[x])@ != text@,
                decreases patterns@.len() - j,
            {
                j = j + 1;
            }
            let ghost old_items = items@;
            if j == patterns.len() {
                patterns.push(text.clone());
            }
            items.push(FilterItem { pattern_index: j, includes: row.includes });
            proof {
                assert(self@.has_pattern(row.glob_pattern_id));
                assert forall|i: int| 0 <= i < patterns@.len() implies #[trigger] pattern_used(items@, i) by {
                    if i == j {
                        assert(items@[k as int].pattern_index == i);
                    } else {
                        assert(pattern_used(old_items, i));
                        let q = choose|q: int| 0 <= q < old_items.len() && (#[trigger] old_items[q]).pattern_index == i;
                        assert(items@[q] == old_items[q]);
                    }
                }
            }
            k = k + 1;
        }
        let f = Filter { patterns, items };
        proof {
            assert(f.wf());
            assert(self@.resolves(filter_id, f)) by {
                let w = rows@;
                assert(is_sorted(w));
            }
            if self@.filter_broken(filter_id) {
                let i = choose|i: int|
                    0 <= i < self@.filter_patterns.len() && (#[trigger] self@.filter_patterns[i]).glob_filter_id
                        == filter_id && !self@.has_pattern(self@.filter_patterns[i].glob_pattern_id);
                self@.filter_patterns.lemma_filter_contains(pred, i);
                assert(fr.contains(self@.filter_patterns[i]));
                assert(rows@.to_multiset().count(self@.filter_patterns[i]) > 0);
                let q = choose|q: int| 0 <= q < rows@.len() && rows@[q] == self@.filter_patterns[i];
                assert(self@.has_pattern(rows@[q].glob_pattern_id));
            }
        }
        Ok(f)
    }


    /// Every directory entry, in identifier order.
    pub fn dir_entries(&self) -> (r: Vec<DirEntry>)
        ensures
            r@ == self@.entries,
    {
        let r = self.entries.clone();
        proof {
            assert(r@ =~= self@.entries);
        }
        r
    }

    /// Every hierarchy edge, in the order they were written.
    pub fn dir_links(&self) -> (r: Vec<DirLink>)
        ensures
            r@ == self@.links,
    {
        let r = self.links.clone();
        proof {
            assert(r@ =~= self@.links);
        }
        r
    }

    /// Every reference of a pattern by a filter, in identifier order.
    pub fn filter_pattern_rows(&self) -> (r: Vec<GlobFilterToPattern>)
        ensures
            r@ == self@.filter_patterns,
    {
        let r = self.filter_patterns.clone();
        proof {
            assert(r@ =~= self@.filter_patterns);
        }
        r
    }


    /// Writes a collection row with the identifier it carries, as when
    /// loading a stored catalogue.
    pub fn restore_collection(&mut self, col: &Collection) -> (r: Result<(), DbError>)
        requires
            old(self)@.wf(),
        ensures
            final(self)@.wf(),
            r.is_ok() <==> old(self)@.has_room() && last_id(old(self)@.collection_ids()) < col.id < i64::MAX
                && !old(self)@.has_collection_named(col.coll_name@),
            r == Err::<(), DbError>(DbError::Full) <==> !old(self)@.has_room(),
            r == Err::<(), DbError>(DbError::BadId { id: col.id }) <==> old(self)@.has_room()
                && !(last_id(old(self)@.collection_ids()) < col.id < i64::MAX),
            r.is_ok() ==> final(self)@ == (CatalogView { collections: old(self)@.collections.push(*col), ..old(self)@ }),
            r.is_err() ==> final(self)@ == old(self)@,
    {
        if !self.has_room() {
            return Err(DbError::Full);
        }
        let last = self.max_collection_id();
        if !(last < col.id && col.id < i64::MAX) {
            return Err(DbError::BadId { id: col.id });
        }
        if self.find_collection_named(col.coll_name.as_str()).is_some() {
            return Err(DbError::NameTaken);
        }
        let ghost before = self@;
        self.collections.push(col.clone());
        proof {
            lemma_same_entries(self@, before);
            assert(self@.collection_ids() =~= before.collection_ids().push(col.id));
            if before.collections.len() > 0 {
                assert(before.collection_ids()[before.collections.len() - 1] == last);
            }
            assert forall|a: int, b: int| 0 <= a < b < self@.collections.len() implies (
            #[trigger] self@.collections[a]).coll_name@ != (#[trigger] self@.collections[b]).coll_name@ by {
                if b == before.collections.len() {
                    assert(self@.collections[a] == before.collections[a]);
                }
            }
        }
        Ok(())
    }

}


/// A scope of writes. The writes go to the transaction's own copy of the
/// catalogue and reach the catalogue only through `commit`; dropping the
/// transaction without committing, like `rollback`, discards every one of them.
pub struct Transaction {
    pub pending: Catalog,
}

impl Transaction {
    /// Begins a transaction over the current state of `base`.
    pub fn new(base: &Catalog) -> (tx: Transaction)
        ensures
            tx.pending@ == base@,
    {
        Transaction { pending: base.duplicate() }
    }

    /// Publishes the writes: the catalogue becomes the transaction's copy.
    pub fn commit(self, target: &mut Catalog)
        ensures
            final(target)@ == self.pending@,
    {
        *target = self.pending;
    }

    /// Discards the writes.
    pub fn rollback(self) {
    }
}

} // verus!
