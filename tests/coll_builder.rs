use palica::catalog::Catalog;
use palica::coll_builder::{CollectionBuilder, ListedEntry};
use palica::dblayer::{DbError, DirEntry};
use palica::fslayer::FsDirEntry;
use palica::glob_filter::{Filter, FilterItem};

/// A filter with one pattern that every rule matches against.
fn keep_all() -> Filter {
    Filter {
        patterns: vec![r"^.+$".to_owned()],
        items: vec![FilterItem { pattern_index: 0, includes: true }],
    }
}

fn listed(entry: FsDirEntry, parent: &str, hit: bool) -> ListedEntry {
    let path = format!("{}/{}", parent, entry.name);
    ListedEntry { entry, path, hits: vec![hit] }
}

/// Runs a walk over a tree given as (directory path, listing) pairs, answering
/// each listing request from it; a directory that is not there is unreadable.
fn walk(
    db: &mut Catalog,
    name: &str,
    root_path: &str,
    tree: Vec<(&str, Vec<ListedEntry>)>,
) -> Result<(palica::dblayer::Collection, Vec<DirEntry>), DbError> {
    let root = FsDirEntry::new_dir("root".to_owned(), 100);
    let (mut b, root_entry) = CollectionBuilder::start(db, name, root_path, 1, keep_all(), &root, 500)?;
    let mut seen = vec![root_entry];
    let mut tree = tree;
    while let Some(dir) = b.next_dir() {
        let pos = tree.iter().position(|(p, _)| *p == dir.path);
        if let Some(pos) = pos {
            let (_, listing) = tree.remove(pos);
            let (next, created) = b.add_children(&listing)?;
            b = next;
            seen.extend(created);
        }
    }
    let col = b.finish(db);
    Ok((col, seen))
}

#[test]
fn new_col() {
    let mut db = Catalog::new();
    let tree = vec![(
        "/data",
        vec![
            listed(FsDirEntry::new_file("README".to_owned(), 12, 7), "/data", true),
            listed(FsDirEntry::new_dir("src".to_owned(), 8), "/data", true),
        ],
    ), (
        "/data/src",
        vec![listed(FsDirEntry::new_file("lib.rs".to_owned(), 99, 9), "/data/src", true)],
    )];
    let col = walk(&mut db, "testcol", "/data", tree);
    assert!(col.is_ok());
}

#[test]
fn one_subdirectory_and_two_files() {
    let mut db = Catalog::new();
    let tree = vec![(
        "/photos",
        vec![
            listed(FsDirEntry::new_file("b.jpg".to_owned(), 20, 1), "/photos", true),
            listed(FsDirEntry::new_dir("Albums".to_owned(), 2), "/photos", true),
            listed(FsDirEntry::new_file("a.jpg".to_owned(), 10, 3), "/photos", true),
        ],
    )];
    let (col, seen) = walk(&mut db, "photos", "/photos", tree).unwrap();
    assert_eq!(seen.len(), 4);
    assert_eq!(db.dir_entries().len(), 4);
    assert_eq!(db.dir_links().len(), 3);
    assert_eq!(col.id, 1);
    assert_eq!(col.root_id, 1);
    assert_eq!(col.fs_path, "/photos");
    let root = db.dir_entry_by_id(col.root_id).unwrap();
    assert!(root.is_dir);
    assert!(db.dir_links().iter().all(|l| l.entry_id != col.root_id));
    let names: Vec<String> = db.enum_dir_entries(col.root_id).into_iter().map(|e| e.fs_name).collect();
    assert_eq!(names, vec!["Albums".to_owned(), "a.jpg".to_owned(), "b.jpg".to_owned()]);
    for e in db.dir_entries() {
        let parents = db.dir_links().iter().filter(|l| l.entry_id == e.id).count();
        assert_eq!(parents, if e.id == col.root_id { 0 } else { 1 });
    }
}

#[test]
fn walk_is_breadth_first_with_consecutive_ids() {
    let mut db = Catalog::new();
    let tree = vec![
        (
            "/r",
            vec![
                listed(FsDirEntry::new_dir("a".to_owned(), 1), "/r", true),
                listed(FsDirEntry::new_dir("b".to_owned(), 1), "/r", true),
            ],
        ),
        ("/r/a", vec![listed(FsDirEntry::new_file("a1".to_owned(), 1, 1), "/r/a", true)]),
        ("/r/b", vec![listed(FsDirEntry::new_file("b1".to_owned(), 1, 1), "/r/b", true)]),
    ];
    let (_, seen) = walk(&mut db, "r", "/r", tree).unwrap();
    let order: Vec<(i64, String)> = seen.into_iter().map(|e| (e.id, e.fs_name)).collect();
    assert_eq!(
        order,
        vec![
            (1, "root".to_owned()),
            (2, "a".to_owned()),
            (3, "b".to_owned()),
            (4, "a1".to_owned()),
            (5, "b1".to_owned()),
        ]
    );
}

#[test]
fn excluded_and_unreadable_branches_are_skipped() {
    let mut db = Catalog::new();
    let tree = vec![(
        "/r",
        vec![
            listed(FsDirEntry::new_dir(".thumbnails".to_owned(), 1), "/r", false),
            listed(FsDirEntry::new_dir("locked".to_owned(), 1), "/r", true),
            listed(FsDirEntry::new_file("x".to_owned(), 5, 1), "/r", true),
        ],
    ), (
        "/r/.thumbnails",
        vec![listed(FsDirEntry::new_file("t".to_owned(), 1, 1), "/r/.thumbnails", true)],
    )];
    // "/r/locked" has no listing: it cannot be read, and the walk goes on
    let (_, seen) = walk(&mut db, "r", "/r", tree).unwrap();
    let names: Vec<String> = seen.into_iter().map(|e| e.fs_name).collect();
    assert_eq!(names, vec!["root".to_owned(), "locked".to_owned(), "x".to_owned()]);
}

#[test]
fn entries_record_metadata_and_sync_time() {
    let mut db = Catalog::new();
    let tree = vec![("/r", vec![listed(FsDirEntry::new_file("f".to_owned(), 42, 77), "/r", true)])];
    let (_, seen) = walk(&mut db, "r", "/r", tree).unwrap();
    let f = &seen[1];
    assert_eq!((f.fs_size, f.fs_mod_time, f.last_sync_time, f.is_dir), (42, 77, 500, false));
    let root = &seen[0];
    assert_eq!((root.fs_size, root.fs_mod_time, root.is_dir), (0, 100, true));
}

#[test]
fn failed_walk_leaves_no_rows() {
    // room for the root and its collection, and one more child only
    let mut db = Catalog::with_row_limit(4);
    let tree = vec![(
        "/r",
        vec![
            listed(FsDirEntry::new_file("a".to_owned(), 1, 1), "/r", true),
            listed(FsDirEntry::new_file("b".to_owned(), 1, 1), "/r", true),
        ],
    )];
    let r = walk(&mut db, "r", "/r", tree);
    assert_eq!(r.err(), Some(DbError::Full));
    assert!(db.dir_entries().is_empty());
    assert!(db.dir_links().is_empty());
    assert!(db.enum_collections().is_empty());
    assert!(db.collection_by_name("r").is_none());
}

#[test]
fn delete_undoes_a_walk() {
    let mut db = Catalog::new();
    let first = vec![("/one", vec![listed(FsDirEntry::new_file("f".to_owned(), 1, 1), "/one", true)])];
    walk(&mut db, "one", "/one", first).unwrap();
    let before = db.max_id("dir_entries");
    let links_before = db.dir_links().len();
    let tree = vec![
        (
            "/two",
            vec![
                listed(FsDirEntry::new_dir("d".to_owned(), 1), "/two", true),
                listed(FsDirEntry::new_file("g".to_owned(), 1, 1), "/two", true),
            ],
        ),
        ("/two/d", vec![listed(FsDirEntry::new_file("h".to_owned(), 1, 1), "/two/d", true)]),
    ];
    let (col, _) = walk(&mut db, "two", "/two", tree).unwrap();
    assert_eq!(db.max_id("dir_entries"), before + 4);
    db.delete_collection(&col).unwrap();
    assert!(db.collection_by_name("two").is_none());
    assert!(db.collection_by_name("one").is_some());
    assert_eq!(db.max_id("dir_entries"), before);
    assert_eq!(db.dir_links().len(), links_before);
}

#[test]
fn taken_name_refuses_the_walk() {
    let mut db = Catalog::new();
    walk(&mut db, "same", "/a", vec![]).unwrap();
    let r = walk(&mut db, "same", "/b", vec![]);
    assert_eq!(r.err(), Some(DbError::NameTaken));
    assert_eq!(db.dir_entries().len(), 1);
}

#[test]
fn collections_by_path_finds_overlaps() {
    let mut db = Catalog::new();
    walk(&mut db, "zeta", "/same", vec![]).unwrap();
    walk(&mut db, "alpha", "/same", vec![]).unwrap();
    walk(&mut db, "other", "/elsewhere", vec![]).unwrap();
    let names: Vec<String> = db.collections_by_fs_path("/same").into_iter().map(|c| c.coll_name).collect();
    assert_eq!(names, vec!["alpha".to_owned(), "zeta".to_owned()]);
}

#[test]
fn abandoned_walk_leaves_no_rows() {
    let mut db = Catalog::new();
    walk(&mut db, "kept", "/kept", vec![]).unwrap();
    let root = FsDirEntry::new_dir("r".to_owned(), 1);
    let (mut b, _) = CollectionBuilder::start(&db, "dropped", "/r", 1, keep_all(), &root, 2).unwrap();
    let dir = b.next_dir().unwrap();
    assert_eq!(dir.path, "/r");
    let listing = vec![listed(FsDirEntry::new_file("f".to_owned(), 1, 1), "/r", true)];
    let (b, created) = b.add_children(&listing).unwrap();
    assert_eq!(created.len(), 1);
    drop(b);
    assert_eq!(db.dir_entries().len(), 1);
    assert!(db.collection_by_name("dropped").is_none());
    assert!(db.collection_by_name("kept").is_some());
}
