//! Builds a collection by a breadth-first walk of a directory tree.
//!
//! The walk is a state machine: `start` records the root and the collection,
//! `next_dir` names the directory to list next, `add_children` takes that
//! listing, and `finish` publishes everything at once. The listing itself
//! (and matching the filter's patterns against each path) is done by the
//! caller. Until `finish`, every write stays in the builder's transaction, so
//! a walk that fails or is abandoned leaves the catalogue as it was.

use crate::catalog::{
    last_id, lemma_in_subtree_after_link, lemma_parent_after_link, lemma_parent_edge_count, Catalog,
    CatalogView, Transaction,
};
use crate::dblayer::{Collection, DbError, DbId, DbTime, DirEntry, DirLink, IdGen};
use crate::fslayer::FsDirEntry;
use crate::glob_filter::{decision, Filter, FilterItem};
use crate::seq_lemmas::{lemma_filter_keeps_prefix, lemma_filter_prefix_len, lemma_filter_step};
use std::collections::VecDeque;
use vstd::prelude::*;

verus! {

/// A directory waiting to be listed: its entry and its filesystem path.
#[derive(Debug)]
pub struct QueuedDir {
    pub id: DbId,
    pub path: String,
}

/// One child of a listed directory: what the filesystem says of it, its full
/// path, and for each pattern of the walk's filter whether it matches that path.
#[derive(Debug)]
pub struct ListedEntry {
    pub entry: FsDirEntry,
    pub path: String,
    pub hits: Vec<bool>,
}

/// The size a catalogue row records: the size in bytes, as far as `i64` reaches.
pub open spec fn size_in_catalog(size: u64) -> i64 {
    if size <= i64::MAX as u64 {
        size as i64
    } else {
        i64::MAX
    }
}

/// The catalogue row for a filesystem entry.
pub open spec fn entry_from_fs(fs: FsDirEntry, id: DbId, sync_time: DbTime) -> DirEntry {
    DirEntry {
        id,
        fs_name: fs.name,
        fs_mod_time: fs.mod_time,
        last_sync_time: sync_time,
        is_dir: fs.is_dir,
        fs_size: size_in_catalog(fs.size),
    }
}

fn new_entry_from_fs(fs_entry: &FsDirEntry, new_id: DbId, sync_time: DbTime) -> (r: DirEntry)
    ensures
        r == entry_from_fs(*fs_entry, new_id, sync_time),
{
    let fs_size = if fs_entry.size <= i64::MAX as u64 {
        fs_entry.size as i64
    } else {
        i64::MAX
    };
    DirEntry {
        id: new_id,
        fs_name: fs_entry.name.clone(),
        fs_mod_time: fs_entry.mod_time,
        last_sync_time: sync_time,
        is_dir: fs_entry.is_dir,
        fs_size,
    }
}

/// The children of a listing that the filter admits, in listing order.
pub open spec fn admitted(listing: Seq<ListedEntry>, rules: Seq<FilterItem>) -> Seq<ListedEntry> {
    listing.filter(|c: ListedEntry| decision(rules, c.hits@))
}

/// The edges from `dir` to each of `entries`.
pub open spec fn links_to(dir: DbId, entries: Seq<DirEntry>) -> Seq<DirLink> {
    entries.map_values(|e: DirEntry| DirLink { directory_id: dir, entry_id: e.id })
}

/// The identifiers of the directories among `entries`.
pub open spec fn dir_ids(entries: Seq<DirEntry>) -> Seq<DbId> {
    entries.filter(|e: DirEntry| e.is_dir).map_values(|e: DirEntry| e.id)
}

/// What a walk has written on top of `base` when its catalogue is `built` and
/// its collection `col`: `base` is kept as it is; the collection row is added;
/// the entries added form the subtree of the collection's root, a directory
/// with no parent edge, every other added entry having a parent edge; and the
/// edges added name added entries.
pub open spec fn crawl_state_ok(base: CatalogView, built: CatalogView, col: Collection) -> bool {
    let n = base.entries.len() as int;
    &&& base.wf()
    &&& built.wf()
    &&& built.row_limit == base.row_limit
    &&& built.patterns == base.patterns
    &&& built.filters == base.filters
    &&& built.filter_patterns == base.filter_patterns
    &&& !base.has_collection_named(col.coll_name@)
    &&& built.collections == base.collections.push(col)
    &&& built.entries.len() > n
    &&& built.entries.take(n) == base.entries
    &&& built.links.len() >= base.links.len()
    &&& built.links.take(base.links.len() as int) == base.links
    &&& built.entries[n].id == col.root_id
    &&& built.entries[n].is_dir
    &&& !built.has_parent(col.root_id)
    &&& forall|i: int| n < i < built.entries.len() ==> built.has_parent(#[trigger] built.entries[i].id)
    &&& forall|i: int|
        n <= i < built.entries.len() ==> built.in_subtree(col.root_id, #[trigger] built.entries[i].id)
    &&& forall|k: int|
        base.links.len() <= k < built.links.len() ==> (#[trigger] built.links[k]).entry_id > last_id(
            base.entry_ids(),
        )
}

/// Every identifier in the subtree of `root` is at least `root`.
proof fn lemma_in_subtree_at_least_root(v: CatalogView, root: DbId, id: DbId)
    requires
        v.in_subtree(root, id),
    ensures
        root <= id,
{
}

/// Adding one entry `e` with an edge from `dir` keeps what a walk has written
/// well formed.
proof fn lemma_add_child(
    base: CatalogView,
    p: CatalogView,
    grown: CatalogView,
    col: Collection,
    e: DirEntry,
    dir: DbId,
)
    requires
        crawl_state_ok(base, p, col),
        grown.wf(),
        e.id == last_id(p.entry_ids()) + 1,
        p.is_dir_entry(dir),
        p.in_subtree(col.root_id, dir),
        grown == (CatalogView {
            entries: p.entries.push(e),
            links: p.links.push(DirLink { directory_id: dir, entry_id: e.id }),
            ..p
        }),
    ensures
        crawl_state_ok(base, grown, col),
        forall|x: DbId|
            #[trigger] p.is_dir_entry(x) ==> grown.is_dir_entry(x) && grown.in_subtree(col.root_id, x)
                == p.in_subtree(col.root_id, x),
        e.is_dir ==> grown.is_dir_entry(e.id),
        grown.in_subtree(col.root_id, e.id),
        last_id(grown.entry_ids()) == e.id,
{
    let n = base.entries.len() as int;
    let m = p.entries.len() as int;
    let root = col.root_id;
    let l = DirLink { directory_id: dir, entry_id: e.id };
    assert(grown.entry_ids() =~= p.entry_ids().push(e.id));
    assert(p.entry_ids()[m - 1] == p.entries[m - 1].id);
    // every entry of `p` lies below the new identifier
    assert forall|i: int| 0 <= i < m implies (#[trigger] p.entries[i]).id < e.id by {
        if i < m - 1 {
            assert(p.entry_ids()[i] < p.entry_ids()[m - 1]);
        }
    }
    assert forall|k: int| 0 <= k < p.links.len() implies (#[trigger] p.links[k]).entry_id != e.id by {
        let i = choose|i: int| 0 <= i < p.entries.len() && (#[trigger] p.entries[i]).id == p.links[k].entry_id;
    }
    assert(!p.has_parent(e.id));
    assert forall|x: DbId| #[trigger] p.is_dir_entry(x) implies grown.is_dir_entry(x) && grown.in_subtree(root, x)
        == p.in_subtree(root, x) by {
        let i = choose|i: int| 0 <= i < p.entries.len() && (#[trigger] p.entries[i]).id == x && p.entries[i].is_dir;
        assert(grown.entries[i] == p.entries[i]);
        lemma_in_subtree_after_link(p, grown, l, root, x);
    }
    lemma_in_subtree_at_least_root(p, root, dir);
    {
        let i = choose|i: int| 0 <= i < p.entries.len() && (#[trigger] p.entries[i]).id == dir && p.entries[i].is_dir;
    }
    lemma_in_subtree_after_link(p, grown, l, root, dir);
    lemma_parent_after_link(p, grown, l, e.id);
    if e.is_dir {
        assert(grown.entries[m] == e);
    }
    // the root keeps no parent
    assert(p.entries[n].id == root);
    assert(root < e.id);
    lemma_parent_after_link(p, grown, l, root);
    // what was kept of `base` stays
    assert(grown.entries.take(n) =~= p.entries.take(n));
    assert(grown.links.take(base.links.len() as int) =~= p.links.take(base.links.len() as int));
    assert(grown.entries[n] == p.entries[n]);
    assert forall|i: int| n < i < grown.entries.len() implies grown.has_parent(#[trigger] grown.entries[i].id) by {
        if i < m {
            assert(grown.entries[i] == p.entries[i]);
            let k = choose|k: int| 0 <= k < p.links.len() && (#[trigger] p.links[k]).entry_id == p.entries[i].id;
            assert(grown.links[k] == p.links[k]);
        } else {
            assert(grown.links[p.links.len() as int] == l);
        }
    }
    assert forall|i: int| n <= i < grown.entries.len() implies grown.in_subtree(root, #[trigger] grown.entries[i].id) by {
        if i < m {
            assert(grown.entries[i] == p.entries[i]);
            lemma_in_subtree_after_link(p, grown, l, root, p.entries[i].id);
        }
    }
    // the new edge names a new entry
    assert(base.entries == p.entries.take(n));
    if n > 0 {
        assert(base.entry_ids()[n - 1] == base.entries[n - 1].id);
        assert(base.entries[n - 1] == p.entries[n - 1]);
    }
    assert forall|k: int| base.links.len() <= k < grown.links.len() implies (#[trigger] grown.links[k]).entry_id > last_id(
        base.entry_ids(),
    ) by {
        if k < p.links.len() {
            assert(grown.links[k] == p.links[k]);
        }
    }
}

/// After a walk, every entry it added other than the root has exactly one
/// parent edge, and the root is a directory with no parent edge.
pub proof fn lemma_walk_edges(base: CatalogView, built: CatalogView, col: Collection)
    requires
        crawl_state_ok(base, built, col),
    ensures
        forall|i: int|
            base.entries.len() < i < built.entries.len() ==> built.parent_edge_count(
                #[trigger] built.entries[i].id,
            ) == 1,
        built.is_dir_entry(col.root_id),
        built.parent_edge_count(col.root_id) == 0,
{
    let n = base.entries.len() as int;
    assert forall|i: int| n < i < built.entries.len() implies built.parent_edge_count(
        #[trigger] built.entries[i].id,
    ) == 1 by {
        lemma_parent_edge_count(built, built.entries[i].id);
    }
    assert(built.entries[n].id == col.root_id);
    lemma_parent_edge_count(built, col.root_id);
}

/// Deleting the collection that a walk built removes all that the walk added:
/// the entries, the edges and the collection rows are again those from before
/// the walk, so the name is free again and the largest entry identifier is
/// what it was before.
pub proof fn lemma_delete_undoes_walk(base: CatalogView, built: CatalogView, col: Collection)
    requires
        crawl_state_ok(base, built, col),
    ensures
        built.has_entry(col.root_id),
        ({
            let after = built.without_subtree(col.root_id).without_collection(col.id);
            &&& after.entries == base.entries
            &&& after.links == base.links
            &&& after.collections == base.collections
            &&& !after.has_collection_named(col.coll_name@)
            &&& last_id(after.entry_ids()) == last_id(base.entry_ids())
        }),
{
    let n = base.entries.len() as int;
    let root = col.root_id;
    let last = last_id(base.entry_ids());
    assert(built.entries[n].id == root);
    assert forall|i: int| 0 <= i < n implies (#[trigger] built.entries[i]).id < root by {
        assert(built.entry_ids()[i] < built.entry_ids()[n]);
    }
    assert(built.entry_ids()[n] == root);
    assert(1 <= built.entry_ids()[n]);
    if n > 0 {
        assert(base.entries[n - 1] == built.entries.take(n)[n - 1]);
        assert(base.entry_ids()[n - 1] == base.entries[n - 1].id);
        assert(built.entry_ids()[n - 1] < built.entry_ids()[n]);
    }
    assert(last < root);
    // entries
    let pe = |e: DirEntry| !built.in_subtree(root, e.id);
    assert forall|i: int| 0 <= i < n implies pe(#[trigger] built.entries[i]) by {
    }
    assert forall|i: int| n <= i < built.entries.len() implies !pe(#[trigger] built.entries[i]) by {
    }
    lemma_filter_keeps_prefix(built.entries, n, pe);
    // edges
    let m = base.links.len() as int;
    let pl = |l: DirLink| !built.in_subtree(root, l.entry_id) && !built.in_subtree(root, l.directory_id);
    assert forall|k: int| 0 <= k < m implies pl(#[trigger] built.links[k]) by {
        assert(built.links[k] == base.links[k]);
        let l = base.links[k];
        let a = choose|a: int| 0 <= a < base.entries.len() && (#[trigger] base.entries[a]).id == l.entry_id;
        let b = choose|b: int| 0 <= b < base.entries.len() && (#[trigger] base.entries[b]).id == l.directory_id && base.entries[b].is_dir;
        assert(base.entries[a] == built.entries[a]);
        assert(base.entries[b] == built.entries[b]);
    }
    assert forall|k: int| m <= k < built.links.len() implies !pl(#[trigger] built.links[k]) by {
        let l = built.links[k];
        let a = choose|a: int| 0 <= a < built.entries.len() && (#[trigger] built.entries[a]).id == l.entry_id;
        if a < n {
            assert(base.entries[a] == built.entries[a]);
            assert(base.entry_ids()[a] == base.entries[a].id);
            if a < n - 1 {
                assert(base.entry_ids()[a] < base.entry_ids()[n - 1]);
            }
        }
    }
    lemma_filter_keeps_prefix(built.links, m, pl);
    // collections
    let c = built.collections.len() as int;
    let pc = |x: Collection| x.id != col.id;
    assert(built.collections[c - 1] == col);
    assert forall|i: int| 0 <= i < c - 1 implies pc(#[trigger] built.collections[i]) by {
        assert(built.collection_ids()[i] < built.collection_ids()[c - 1]);
    }
    lemma_filter_keeps_prefix(built.collections, c - 1, pc);
    assert(built.collections.take(c - 1) =~= base.collections);
}

/// A walk that is abandoned, or fails, at any point leaves the catalogue as it
/// was when the walk started (its writes live only in the builder's
/// transaction), and that catalogue holds no row of the walk: no entry of the
/// collection's subtree, no edge that names such an entry, and no row of the
/// collection, by name or by identifier.
pub proof fn lemma_discarded_walk_leaves_nothing(base: CatalogView, built: CatalogView, col: Collection)
    requires
        crawl_state_ok(base, built, col),
    ensures
        forall|i: int|
            0 <= i < base.entries.len() ==> !built.in_subtree(col.root_id, #[trigger] base.entries[i].id),
        forall|k: int|
            0 <= k < base.links.len() ==> !built.in_subtree(col.root_id, (#[trigger] base.links[k]).entry_id)
                && !built.in_subtree(col.root_id, base.links[k].directory_id),
        !base.has_collection_named(col.coll_name@),
        forall|i: int| 0 <= i < base.collections.len() ==> (#[trigger] base.collections[i]).id != col.id,
{
    let n = base.entries.len() as int;
    let root = col.root_id;
    assert(built.entry_ids()[n] == root);
    assert forall|i: int| 0 <= i < n implies (#[trigger] base.entries[i]).id < root by {
        assert(base.entries[i] == built.entries.take(n)[i]);
        assert(built.entry_ids()[i] < built.entry_ids()[n]);
    }
    assert forall|k: int| 0 <= k < base.links.len() implies (#[trigger] base.links[k]).entry_id < root
        && base.links[k].directory_id < root by {
        let l = base.links[k];
        let a = choose|a: int| 0 <= a < base.entries.len() && (#[trigger] base.entries[a]).id == l.entry_id;
        let b = choose|b: int| 0 <= b < base.entries.len() && (#[trigger] base.entries[b]).id == l.directory_id && base.entries[b].is_dir;
    }
    let c = built.collections.len() as int;
    assert(built.collections[c - 1] == col);
    assert forall|i: int| 0 <= i < base.collections.len() implies (#[trigger] base.collections[i]).id != col.id by {
        assert(built.collections[i] == base.collections[i]);
        assert(built.collection_ids()[i] < built.collection_ids()[c - 1]);
    }
}

/// A walk in progress.
pub struct CollectionBuilder {
    tx: Transaction,
    ids: IdGen,
    filter: Filter,
    queue: VecDeque<QueuedDir>,
    current: Option<DbId>,
    sync_time: DbTime,
    collection: Collection,
    base: Ghost<CatalogView>,
}

impl CollectionBuilder {
    /// The catalogue as it was when the walk started.
    pub closed spec fn base(&self) -> CatalogView {
        self.base@
    }

    /// The catalogue as the walk has written it so far.
    pub closed spec fn pending(&self) -> CatalogView {
        self.tx.pending@
    }

    pub closed spec fn collection(&self) -> Collection {
        self.collection
    }

    /// The directory whose listing `add_children` takes.
    pub closed spec fn current(&self) -> Option<DbId> {
        self.current
    }

    /// The directories waiting to be listed, first to last.
    pub closed spec fn waiting(&self) -> Seq<DbId> {
        self.queue@.map_values(|q: QueuedDir| q.id)
    }

    /// The identifier the next added entry gets.
    pub closed spec fn next_id(&self) -> int {
        self.ids@
    }

    pub closed spec fn rules(&self) -> Seq<FilterItem> {
        self.filter.items@
    }

    pub closed spec fn pattern_count(&self) -> nat {
        self.filter.patterns@.len()
    }

    pub closed spec fn sync_time(&self) -> DbTime {
        self.sync_time
    }

    /// The builder's invariant.
    pub closed spec fn inv(&self) -> bool {
        let p = self.tx.pending@;
        let root = self.collection.root_id;
        &&& crawl_state_ok(self.base@, p, self.collection)
        &&& self.ids@ == last_id(p.entry_ids()) + 1
        &&& self.filter.wf()
        &&& forall|i: int|
            0 <= i < self.queue@.len() ==> p.is_dir_entry(#[trigger] self.queue@[i].id)
                && p.in_subtree(root, self.queue@[i].id)
        &&& self.current matches Some(c) ==> p.is_dir_entry(c) && p.in_subtree(root, c)
    }

    /// Starts a walk: records the root directory under the next entry
    /// identifier and creates the collection that points at it. Returns the
    /// builder and the root's entry.
    pub fn start(
        catalog: &Catalog,
        name: &str,
        fs_path: &str,
        filter_id: DbId,
        filter: Filter,
        root: &FsDirEntry,
        sync_time: DbTime,
    ) -> (r: Result<(CollectionBuilder, DirEntry), DbError>)
        requires
            catalog@.wf(),
            filter.wf(),
            root.is_dir,
        ensures
            r.is_ok() <==> {
                &&& catalog@.rows() + 2 <= catalog@.row_limit
                &&& last_id(catalog@.entry_ids()) + 1 < i64::MAX
                &&& catalog@.collection_id_left()
                &&& !catalog@.has_collection_named(name@)
            },
            r.is_ok() ==> {
                let (b, e) = r.unwrap();
                let c = b.collection();
                &&& b.inv()
                &&& b.base() == catalog@
                &&& e == entry_from_fs(*root, (last_id(catalog@.entry_ids()) + 1) as DbId, sync_time)
                &&& c.id == last_id(catalog@.collection_ids()) + 1
                &&& c.coll_name@ == name@
                &&& c.fs_path@ == fs_path@
                &&& c.root_id == e.id
                &&& c.glob_filter_id == filter_id
                &&& b.pending() == (CatalogView {
                    entries: catalog@.entries.push(e),
                    collections: catalog@.collections.push(c),
                    ..catalog@
                })
                &&& b.waiting() == seq![e.id]
                &&& b.current().is_none()
                &&& b.next_id() == e.id + 1
                &&& b.rules() == filter.items@
                &&& b.pattern_count() == filter.patterns@.len()
                &&& b.sync_time() == sync_time
            },
    {
        let mut tx = Transaction::new(catalog);
        let last = tx.pending.max_entry_id();
        let mut ids = IdGen::new_with_last_id(last);
        if !ids.can_generate() {
            return Err(DbError::Full);
        }
        let root_id = ids.gen_id();
        let root_entry = new_entry_from_fs(root, root_id, sync_time);
        let ghost initial = tx.pending@;
        match tx.pending.create_dir_entry(&root_entry) {
            Err(e) => return Err(e),
            Ok(()) => {},
        }
        let ghost with_root = tx.pending@;
        let col = match tx.pending.create_collection(name, fs_path, root_id, filter_id) {
            Err(e) => return Err(e),
            Ok(c) => c,
        };
        let mut queue: VecDeque<QueuedDir> = VecDeque::new();
        queue.push_back(QueuedDir { id: root_id, path: fs_path.to_owned() });
        let ghost p = tx.pending@;
        let b = CollectionBuilder {
            tx,
            ids,
            filter,
            queue,
            current: None,
            sync_time,
            collection: col,
            base: Ghost(catalog@),
        };
        proof {
            let n = initial.entries.len() as int;
            assert(p.entry_ids() =~= initial.entry_ids().push(root_id));
            assert(p.entries[n] == root_entry);
            assert forall|k: int| 0 <= k < p.links.len() implies (#[trigger] p.links[k]).entry_id != root_id by {
                assert(p.links[k] == initial.links[k]);
                let i = choose|i: int| 0 <= i < initial.entries.len() && (#[trigger] initial.entries[i]).id == initial.links[k].entry_id;
            }
            assert(p.entries.take(n) =~= initial.entries);
            assert(p.links.take(initial.links.len() as int) =~= initial.links);
            assert(p.is_dir_entry(root_id));
            assert(b.waiting() =~= seq![root_id]);
        }
        Ok((b, root_entry))
    }

    /// Takes the next directory to list, first in first out.
    pub fn next_dir(&mut self) -> (r: Option<QueuedDir>)
        requires
            old(self).inv(),
        ensures
            final(self).inv(),
            final(self).base() == old(self).base(),
            final(self).pending() == old(self).pending(),
            final(self).collection() == old(self).collection(),
            final(self).next_id() == old(self).next_id(),
            final(self).rules() == old(self).rules(),
            final(self).pattern_count() == old(self).pattern_count(),
            final(self).sync_time() == old(self).sync_time(),
            r.is_none() <==> old(self).waiting().len() == 0,
            r.is_some() ==> {
                &&& r.unwrap().id == old(self).waiting()[0]
                &&& final(self).waiting() == old(self).waiting().drop_first()
                &&& final(self).current() == Some(r.unwrap().id)
            },
            r.is_none() ==> final(self).waiting() == old(self).waiting() && final(self).current().is_none(),
    {
        let next = self.queue.pop_front();
        match &next {
            Some(q) => self.current = Some(q.id),
            None => self.current = None,
        }
        proof {
            assert(self.waiting() =~= old(self).waiting().subrange(1, old(self).waiting().len() as int)
                || next.is_none());
        }
        next
    }

    /// Records one child of the current directory under the next identifier,
    /// with its edge, and queues it when it is a directory.
    fn add_one(&mut self, fs_entry: &FsDirEntry, path: &String) -> (r: Result<DirEntry, DbError>)
        requires
            old(self).inv(),
            old(self).current.is_some(),
        ensures
            r.is_ok() <==> old(self).tx.pending@.rows() + 2 <= old(self).tx.pending@.row_limit
                && old(self).ids@ < i64::MAX,
            r.is_ok() ==> {
                let e = r.unwrap();
                let dir = old(self).current.unwrap();
                &&& final(self).inv()
                &&& e == entry_from_fs(*fs_entry, old(self).ids@ as DbId, old(self).sync_time)
                &&& final(self).tx.pending@ == (CatalogView {
                    entries: old(self).tx.pending@.entries.push(e),
                    links: old(self).tx.pending@.links.push(DirLink { directory_id: dir, entry_id: e.id }),
                    ..old(self).tx.pending@
                })
                &&& final(self).waiting() == if e.is_dir {
                    old(self).waiting().push(e.id)
                } else {
                    old(self).waiting()
                }
                &&& final(self).ids@ == old(self).ids@ + 1
                &&& final(self).base == old(self).base
                &&& final(self).collection == old(self).collection
                &&& final(self).filter == old(self).filter
                &&& final(self).sync_time == old(self).sync_time
                &&& final(self).current == old(self).current
            },
    {
        let dir = self.current.unwrap();
        let ghost pb = self.tx.pending@;
        let ghost qb = self.waiting();
        proof {
            assert(pb.is_dir_entry(dir));
            let d = choose|d: int| 0 <= d < pb.entries.len() && (#[trigger] pb.entries[d]).id == dir && pb.entries[d].is_dir;
            assert(pb.entry_ids()[d] == dir);
            assert(pb.entry_ids()[pb.entries.len() - 1] == pb.entries[pb.entries.len() - 1].id);
            if d < pb.entries.len() - 1 {
                assert(pb.entry_ids()[d] < pb.entry_ids()[pb.entries.len() - 1]);
            }
            assert forall|k: int| 0 <= k < pb.links.len() implies (#[trigger] pb.links[k]).entry_id < self.ids@ by {
                let x = choose|x: int| 0 <= x < pb.entries.len() && (#[trigger] pb.entries[x]).id == pb.links[k].entry_id;
                assert(pb.entry_ids()[x] == pb.entries[x].id);
                if x < pb.entries.len() - 1 {
                    assert(pb.entry_ids()[x] < pb.entry_ids()[pb.entries.len() - 1]);
                }
            }
        }
        if !self.ids.can_generate() {
            return Err(DbError::Full);
        }
        let id = self.ids.gen_id();
        let e = new_entry_from_fs(fs_entry, id, self.sync_time);
        match self.tx.pending.create_dir_entry(&e) {
            Err(err) => return Err(err),
            Ok(()) => {},
        }
        proof {
            let pm = self.tx.pending@;
            let d = choose|d: int| 0 <= d < pb.entries.len() && (#[trigger] pb.entries[d]).id == dir && pb.entries[d].is_dir;
            assert(pm.entries[d] == pb.entries[d]);
            assert(pm.entries[pb.entries.len() as int] == e);
            assert(pm.has_entry(id));
            assert(pm.is_dir_entry(dir));
        }
        match self.tx.pending.map_dir_entry_to_parent_dir(id, dir) {
            Err(err) => return Err(err),
            Ok(()) => {},
        }
        if e.is_dir {
            self.queue.push_back(QueuedDir { id, path: path.clone() });
        }
        proof {
            let pa = self.tx.pending@;
            lemma_add_child(self.base@, pb, pa, self.collection, e, dir);
            if e.is_dir {
                assert(self.waiting() =~= qb.push(id));
            } else {
                assert(self.waiting() =~= qb);
            }
            assert forall|x: int| 0 <= x < self.queue@.len() implies pa.is_dir_entry(#[trigger] self.queue@[x].id)
                && pa.in_subtree(self.collection.root_id, self.queue@[x].id) by {
                if x < qb.len() {
                    assert(pb.is_dir_entry(self.queue@[x].id));
                }
            }
            assert(pb.is_dir_entry(dir));
        }
        Ok(e)
    }

    /// Records the children of the current directory that the filter admits,
    /// in listing order and under consecutive identifiers, each with an edge
    /// from the current directory, and queues the directories among them.
    /// Returns the builder and the entries written. When the catalogue's row
    /// limit or the identifiers run out, the walk ends in an error and all of
    /// it is discarded.
    #[verifier::rlimit(40)]
    pub fn add_children(self, listing: &Vec<ListedEntry>) -> (r: Result<(CollectionBuilder, Vec<DirEntry>), DbError>)
        requires
            self.inv(),
            self.current().is_some(),
            forall|i: int| 0 <= i < listing@.len() ==> (#[trigger] listing@[i]).hits@.len() == self.pattern_count(),
        ensures
            r.is_ok() <==> {
                let adm = admitted(listing@, self.rules());
                &&& self.pending().rows() + 2 * adm.len() <= self.pending().row_limit
                &&& self.next_id() + adm.len() <= i64::MAX
            },
            r.is_ok() ==> {
                let (b, created) = r.unwrap();
                let adm = admitted(listing@, self.rules());
                let dir = self.current().unwrap();
                &&& b.inv()
                &&& b.base() == self.base()
                &&& b.collection() == self.collection()
                &&& b.rules() == self.rules()
                &&& b.pattern_count() == self.pattern_count()
                &&& b.sync_time() == self.sync_time()
                &&& b.current() == self.current()
                &&& created@.len() == adm.len()
                &&& forall|i: int|
                    0 <= i < adm.len() ==> #[trigger] created@[i] == entry_from_fs(
                        adm[i].entry,
                        (self.next_id() + i) as DbId,
                        self.sync_time(),
                    )
                &&& b.pending() == (CatalogView {
                    entries: self.pending().entries + created@,
                    links: self.pending().links + links_to(dir, created@),
                    ..self.pending()
                })
                &&& b.waiting() == self.waiting() + dir_ids(created@)
                &&& b.next_id() == self.next_id() + adm.len()
            },
    {
        let mut b = self;
        let ghost start = b;
        let ghost initial = b.tx.pending@;
        let ghost id0 = b.ids@;
        let ghost dir = b.current.unwrap();
        let ghost rules = b.filter.items@;
        let ghost passes = |c: ListedEntry| decision(rules, c.hits@);
        let mut created: Vec<DirEntry> = Vec::new();
        let mut i: usize = 0;
        while i < listing.len()
            invariant
                b.inv(),
                b.base == start.base,
                b.collection == start.collection,
                b.filter == start.filter,
                b.sync_time == start.sync_time,
                b.current == start.current,
                b.current == Some(dir),
                rules == start.filter.items@,
                initial == start.tx.pending@,
                id0 == start.ids@,
                start == self,
                0 <= i <= listing@.len(),
                forall|j: int| 0 <= j < listing@.len() ==> (#[trigger] listing@[j]).hits@.len() == start.filter.patterns@.len(),
                passes == (|c: ListedEntry| decision(rules, c.hits@)),
                created@.len() == listing@.take(i as int).filter(passes).len(),
                forall|j: int|
                    0 <= j < created@.len() ==> #[trigger] created@[j] == entry_from_fs(
                        listing@.take(i as int).filter(passes)[j].entry,
                        (id0 + j) as DbId,
                        start.sync_time,
                    ),
                b.tx.pending@ == (CatalogView {
                    entries: initial.entries + created@,
                    links: initial.links + links_to(dir, created@),
                    ..initial
                }),
                b.tx.pending@.rows() == initial.rows() + 2 * created@.len(),
                b.waiting() == start.waiting() + dir_ids(created@),
                b.ids@ == id0 + created@.len(),
            decreases listing@.len() - i,
        {
            proof {
                lemma_filter_step(listing@, i as int, passes);
                lemma_filter_prefix_len(listing@, i as int + 1, listing@.len() as int, passes);
                assert(listing@.take(listing@.len() as int) =~= listing@);
            }
            let child = &listing[i];
            if b.filter.admits(&child.hits) {
                let ghost cb = created@;
                let ghost qb = b.waiting();
                let ghost pbefore = b.tx.pending@;
                let ghost idb = b.ids@;
                let e = match b.add_one(&child.entry, &child.path) {
                    Err(err) => {
                        proof {
                            assert(listing@.take(i as int + 1).filter(passes).len() == cb.len() + 1);
                            assert(admitted(listing@, rules) == listing@.filter(passes));
                            let adm = admitted(listing@, start.rules());
                            assert(adm.len() >= cb.len() + 1);
                            assert(pbefore.rows() == initial.rows() + 2 * cb.len());
                            assert(idb == id0 + cb.len());
                            assert(pbefore.row_limit == initial.row_limit);
                            assert(!(pbefore.rows() + 2 <= pbefore.row_limit && idb < i64::MAX));
                            assert(!(start.pending().rows() + 2 * adm.len() <= start.pending().row_limit
                                && start.next_id() + adm.len() <= i64::MAX));
                        }
                        return Err(err);
                    },
                    Ok(e) => e,
                };
                created.push(e);
                proof {
                    let pa = b.tx.pending@;
                    assert(pa.entries =~= initial.entries + created@);
                    assert(links_to(dir, created@) =~= links_to(dir, cb).push(DirLink { directory_id: dir, entry_id: e.id }));
                    assert(pa.links =~= initial.links + links_to(dir, created@));
                    assert(created@.drop_last() =~= cb);
                    reveal(Seq::filter);
                    if e.is_dir {
                        assert(dir_ids(created@) =~= dir_ids(cb).push(e.id));
                        assert(b.waiting() =~= start.waiting() + dir_ids(created@));
                    } else {
                        assert(dir_ids(created@) =~= dir_ids(cb));
                    }
                    let t = listing@.take(i as int + 1).filter(passes);
                    assert forall|j: int| 0 <= j < created@.len() implies #[trigger] created@[j] == entry_from_fs(
                        t[j].entry,
                        (id0 + j) as DbId,
                        start.sync_time,
                    ) by {
                        if j < cb.len() {
                            assert(created@[j] == cb[j]);
                        }
                    }
                }
            }
            i = i + 1;
        }
        proof {
            assert(listing@.take(i as int) =~= listing@);
        }
        Ok((b, created))
    }

    /// Publishes the walk: the catalogue becomes the builder's copy. The
    /// catalogue must not have changed since `start`.
    pub fn finish(self, catalog: &mut Catalog) -> (r: Collection)
        requires
            self.inv(),
            old(catalog)@ == self.base(),
        ensures
            final(catalog)@ == self.pending(),
            r == self.collection(),
            crawl_state_ok(old(catalog)@, final(catalog)@, r),
    {
        let col = self.collection;
        self.tx.commit(catalog);
        col
    }

}

} // verus!
