use palica::catalog::Catalog;
use palica::dblayer::{
    Collection, DbError, DeleteError, DirEntry, GlobFilter, GlobFilterToPattern, GlobPattern,
};

fn entry(id: i64, name: &str, is_dir: bool) -> DirEntry {
    DirEntry {
        id,
        fs_name: name.to_owned(),
        fs_mod_time: 0,
        last_sync_time: 0,
        is_dir,
        fs_size: 0,
    }
}

#[test]
fn row_limit_refuses_writes() {
    let mut db = Catalog::with_row_limit(1);
    db.create_dir_entry(&entry(1, "a", true)).unwrap();
    assert_eq!(db.create_dir_entry(&entry(2, "b", true)), Err(DbError::Full));
    assert_eq!(db.create_collection("c", "p", 1, 1).err(), Some(DbError::Full));
}

#[test]
fn ids_must_rise() {
    let mut db = Catalog::new();
    db.create_dir_entry(&entry(5, "a", true)).unwrap();
    assert_eq!(db.create_dir_entry(&entry(5, "b", true)), Err(DbError::BadId { id: 5 }));
    assert_eq!(db.create_dir_entry(&entry(3, "b", true)), Err(DbError::BadId { id: 3 }));
    assert_eq!(db.create_dir_entry(&entry(i64::MAX, "b", true)), Err(DbError::BadId { id: i64::MAX }));
    assert_eq!(db.max_id("dir_entries"), 5);
}

#[test]
fn bad_links_are_refused() {
    let mut db = Catalog::new();
    db.create_dir_entry(&entry(1, "dir", true)).unwrap();
    db.create_dir_entry(&entry(2, "file", false)).unwrap();
    db.create_dir_entry(&entry(3, "other", false)).unwrap();
    // parent is a file
    assert_eq!(
        db.map_dir_entry_to_parent_dir(3, 2),
        Err(DbError::BadLink { directory_id: 2, entry_id: 3 })
    );
    // missing entry
    assert_eq!(
        db.map_dir_entry_to_parent_dir(9, 1),
        Err(DbError::BadLink { directory_id: 1, entry_id: 9 })
    );
    // parent younger than the entry
    db.create_dir_entry(&entry(4, "late", true)).unwrap();
    assert_eq!(
        db.map_dir_entry_to_parent_dir(3, 4),
        Err(DbError::BadLink { directory_id: 4, entry_id: 3 })
    );
    db.map_dir_entry_to_parent_dir(2, 1).unwrap();
    // a second parent
    assert_eq!(
        db.map_dir_entry_to_parent_dir(2, 1),
        Err(DbError::BadLink { directory_id: 1, entry_id: 2 })
    );
}

#[test]
fn duplicate_collection_name_is_refused() {
    let mut db = Catalog::new();
    db.create_collection("x", "p", 1, 1).unwrap();
    assert_eq!(db.create_collection("x", "q", 1, 1).err(), Some(DbError::NameTaken));
}

#[test]
fn deleting_the_wrong_kind_is_refused() {
    let mut db = Catalog::new();
    let dir = entry(1, "dir", true);
    let file = entry(2, "file", false);
    db.create_dir_entry(&dir).unwrap();
    db.create_dir_entry(&file).unwrap();
    assert_eq!(db.delete_dir_entry_file(&dir), Err(DeleteError::NotAfile { id: 1 }));
    assert_eq!(db.delete_dir_entry_dir(&file), Err(DeleteError::NotAdir { id: 2 }));
    // a stale value that calls the file a directory
    let stale = entry(2, "file", true);
    assert_eq!(db.delete_dir_entry(&stale), Err(DeleteError::NotAdir { id: 2 }));
    assert_eq!(db.dir_entries().len(), 2);
}

#[test]
fn deleting_a_collection_without_root_is_refused() {
    let mut db = Catalog::new();
    let col: Collection = db.create_collection("lost", "p", 42, 1).unwrap();
    assert_eq!(db.delete_collection(&col), Err(DeleteError::NoRootEntry));
    assert!(db.collection_by_name("lost").is_some());
}

#[test]
fn deleting_a_subtree_keeps_its_siblings() {
    let mut db = Catalog::new();
    db.create_dir_entry(&entry(1, "root", true)).unwrap();
    db.create_dir_entry(&entry(2, "keep", false)).unwrap();
    let sub = entry(3, "sub", true);
    db.create_dir_entry(&sub).unwrap();
    db.create_dir_entry(&entry(4, "inner", false)).unwrap();
    db.map_dir_entry_to_parent_dir(2, 1).unwrap();
    db.map_dir_entry_to_parent_dir(3, 1).unwrap();
    db.map_dir_entry_to_parent_dir(4, 3).unwrap();
    db.delete_dir_entry(&sub).unwrap();
    let ids: Vec<i64> = db.dir_entries().into_iter().map(|e| e.id).collect();
    assert_eq!(ids, vec![1, 2]);
    assert_eq!(db.dir_links().len(), 1);
    assert!(db.dir_entry_by_id(4).is_none());
}

#[test]
fn equal_names_put_directories_first() {
    let mut db = Catalog::new();
    db.create_dir_entry(&entry(1, "root", true)).unwrap();
    db.create_dir_entry(&entry(2, "same", false)).unwrap();
    db.create_dir_entry(&entry(3, "same", true)).unwrap();
    db.create_dir_entry(&entry(4, "a", false)).unwrap();
    for id in 2..5 {
        db.map_dir_entry_to_parent_dir(id, 1).unwrap();
    }
    let kids: Vec<(String, bool)> = db.enum_dir_entries(1).into_iter().map(|e| (e.fs_name, e.is_dir)).collect();
    assert_eq!(
        kids,
        vec![("a".to_owned(), false), ("same".to_owned(), true), ("same".to_owned(), false)]
    );
}

#[test]
fn restoring_collections_keeps_their_ids() {
    let mut db = Catalog::new();
    let stored = Collection {
        id: 7,
        coll_name: "kept".to_owned(),
        fs_path: "/k".to_owned(),
        root_id: 1,
        glob_filter_id: 1,
    };
    db.restore_collection(&stored).unwrap();
    assert_eq!(db.collection_by_name("kept").unwrap(), stored);
    assert_eq!(db.restore_collection(&stored), Err(DbError::BadId { id: 7 }));
    let next = db.create_collection("new", "/n", 1, 1).unwrap();
    assert_eq!(next.id, 8);
}

#[test]
fn entry_flag_must_match_the_deletion_path() {
    let mut db = Catalog::new();
    // absent entries: the flag alone decides
    assert_eq!(db.delete_dir_entry_dir(&entry(9, "x", false)), Err(DeleteError::NotAdir { id: 9 }));
    assert_eq!(db.delete_dir_entry_file(&entry(9, "x", true)), Err(DeleteError::NotAfile { id: 9 }));
    // a stored file flagged as a directory, and the other way round
    db.create_dir_entry(&entry(1, "d", true)).unwrap();
    db.create_dir_entry(&entry(2, "f", false)).unwrap();
    assert_eq!(db.delete_dir_entry_file(&entry(2, "f", true)), Err(DeleteError::NotAfile { id: 2 }));
    assert_eq!(db.delete_dir_entry_dir(&entry(1, "d", false)), Err(DeleteError::NotAdir { id: 1 }));
    assert_eq!(db.delete_dir_entry(&entry(1, "d", false)), Err(DeleteError::NotAfile { id: 1 }));
    assert_eq!(db.dir_entries().len(), 2);
    // matching kinds succeed
    db.delete_dir_entry(&entry(2, "f", false)).unwrap();
    db.delete_dir_entry(&entry(1, "d", true)).unwrap();
    assert!(db.dir_entries().is_empty());
}

#[test]
fn max_id_of_every_table() {
    let mut db = Catalog::new();
    assert_eq!(db.max_id(GlobPattern::table_name()), 0);
    db.create_glob_pattern(&GlobPattern { id: 4, regexp: "a".to_owned() }).unwrap();
    db.create_glob_filter(&GlobFilter { id: 6, name: "f".to_owned() }).unwrap();
    db.create_glob_filter_to_pattern(&GlobFilterToPattern {
        id: 8,
        glob_filter_id: 6,
        glob_pattern_id: 4,
        includes: true,
        position: 1,
    })
    .unwrap();
    assert_eq!(db.max_id(GlobPattern::table_name()), 4);
    assert_eq!(db.max_id(GlobFilter::table_name()), 6);
    assert_eq!(db.max_id(GlobFilterToPattern::table_name()), 8);
    assert_eq!(db.max_id("collections"), 0);
    assert_eq!(db.max_id("dir_entries"), 0);
}
