use palica::catalog::Catalog;
use palica::dblayer::{Collection, DirEntry, IdGen};

fn entry(id: i64, name: &str, is_dir: bool, size: i64) -> DirEntry {
    DirEntry {
        id,
        fs_name: name.to_owned(),
        fs_mod_time: 1,
        last_sync_time: 2,
        is_dir,
        fs_size: size,
    }
}

#[test]
fn create_dir_and_map() {
    let mut db = Catalog::new();

    let max_id = db.max_id(DirEntry::table_name());
    assert_eq!(max_id, 0);

    let mydir_id = max_id + 1;
    db.create_dir_entry(&entry(mydir_id, "mydir", true, 0)).unwrap();

    assert_eq!(db.max_id(DirEntry::table_name()), 1);

    let myfile_id = mydir_id + 1;
    db.create_dir_entry(&entry(myfile_id, "myfile", false, 7)).unwrap();

    db.map_dir_entry_to_parent_dir(myfile_id, mydir_id).unwrap();
}

#[test]
fn create_collection() {
    let mut db = Catalog::new();
    let col = db.create_collection("myname", "mypath", 1, 1).unwrap();
    assert_eq!(col.id, 1);
    let col2 = db.create_collection("myname2", "mypath", 1, 33).unwrap();
    assert_eq!(col2.id, 2);
}

#[test]
fn enum_collections() {
    let mut db = Catalog::new();
    let _col = db.create_collection("myname", "mypath", 1, 1).unwrap();
    let _col2 = db.create_collection("myname2", "mypath", 1, 33).unwrap();

    let cols = db.enum_collections();
    assert_eq!(cols.len(), 2);
    assert_eq!(cols[0].coll_name, "myname");
    assert_eq!(cols[1].coll_name, "myname2");
}

#[test]
fn enum_dir() {
    let mut db = Catalog::new();

    let max_id = db.max_id(DirEntry::table_name());
    assert_eq!(max_id, 0);

    let mydir_id = max_id + 1;
    db.create_dir_entry(&entry(mydir_id, "mydir", true, 0)).unwrap();

    assert_eq!(db.max_id(DirEntry::table_name()), 1);

    let myfile_id = mydir_id + 1;
    db.create_dir_entry(&entry(myfile_id, "fileA", false, 7)).unwrap();

    let myfile_id2 = myfile_id + 1;
    db.create_dir_entry(&entry(myfile_id2, "fileB", false, 7)).unwrap();

    let mydir_id2 = myfile_id2 + 1;
    db.create_dir_entry(&entry(mydir_id2, "Zsubdir", true, 0)).unwrap();

    db.map_dir_entry_to_parent_dir(myfile_id, mydir_id).unwrap();
    db.map_dir_entry_to_parent_dir(myfile_id2, mydir_id).unwrap();
    db.map_dir_entry_to_parent_dir(mydir_id2, mydir_id).unwrap();

    let files = db.enum_dir_entries(mydir_id);
    assert_eq!(files.len(), 3);
    assert_eq!(files[0].fs_name, "Zsubdir");
    assert_eq!(files[1].fs_name, "fileA");
    assert_eq!(files[2].fs_name, "fileB");
}

#[test]
fn id_gen_test() {
    let mut gen = IdGen::new_with_last_id(0);
    assert_eq!(gen.gen_id(), 1);
    assert_eq!(gen.gen_id(), 2);
}

#[test]
fn col_by_name() {
    let mut db = Catalog::new();
    let _col = db.create_collection("cola", "mypath", 1, 1).unwrap();
    let c = db.collection_by_name("cola");
    assert_eq!(c.is_some(), true);
    assert_eq!(c.unwrap().coll_name, "cola");
}

#[test]
fn delete_dir() {
    let mut db = Catalog::new();
    let max_id = db.max_id(DirEntry::table_name());
    assert_eq!(max_id, 0);
    let mydir_id = max_id + 1;
    let dir = entry(mydir_id, "mydir", true, 0);
    db.create_dir_entry(&dir).unwrap();

    assert_eq!(db.max_id(DirEntry::table_name()), 1);

    let myfile_id = mydir_id + 1;
    db.create_dir_entry(&entry(myfile_id, "myfile", false, 7)).unwrap();
    db.map_dir_entry_to_parent_dir(myfile_id, mydir_id).unwrap();

    let subdir_id = myfile_id + 1;
    db.create_dir_entry(&entry(subdir_id, "mysubdir", true, 0)).unwrap();
    db.map_dir_entry_to_parent_dir(subdir_id, mydir_id).unwrap();
    let subfile_id = subdir_id + 1;
    db.create_dir_entry(&entry(subfile_id, "myfile-inside", false, 0)).unwrap();
    db.map_dir_entry_to_parent_dir(subfile_id, subdir_id).unwrap();

    assert_eq!(db.max_id(DirEntry::table_name()), 4);
    db.delete_dir_entry(&dir).unwrap();
    assert_eq!(db.max_id(DirEntry::table_name()), 0);
}

#[test]
fn delete_file() {
    let mut db = Catalog::new();
    let max_id = db.max_id(DirEntry::table_name());
    assert_eq!(max_id, 0);
    let mydir_id = max_id + 1;
    let dir = entry(mydir_id, "mydir", true, 0);
    db.create_dir_entry(&dir).unwrap();

    assert_eq!(db.max_id(DirEntry::table_name()), 1);

    let myfile_id = mydir_id + 1;
    let file_entry = entry(myfile_id, "myfile", false, 7);
    db.create_dir_entry(&file_entry).unwrap();
    db.map_dir_entry_to_parent_dir(myfile_id, mydir_id).unwrap();

    assert_eq!(db.max_id(DirEntry::table_name()), 2);
    db.delete_dir_entry(&file_entry).unwrap();
    assert_eq!(db.max_id(DirEntry::table_name()), 1);
}

#[test]
fn delete_collection() {
    let mut db = Catalog::new();
    let max_id = db.max_id(DirEntry::table_name());
    assert_eq!(max_id, 0);
    let mydir_id = max_id + 1;
    let dir = entry(mydir_id, "mydir", true, 0);
    db.create_dir_entry(&dir).unwrap();

    assert_eq!(db.max_id(DirEntry::table_name()), 1);

    let myfile_id = mydir_id + 1;
    let file_entry = entry(myfile_id, "myfile", false, 7);
    db.create_dir_entry(&file_entry).unwrap();
    db.map_dir_entry_to_parent_dir(myfile_id, mydir_id).unwrap();

    assert_eq!(db.max_id(DirEntry::table_name()), 2);

    let col = db.create_collection("sample_col", "path/aa", mydir_id, 1).unwrap();

    assert_eq!(db.collection_by_name("sample_col").unwrap(), col);
    db.delete_collection(&col).unwrap();
    assert_eq!(db.collection_by_name("sample_col").is_none(), true);
    assert_eq!(db.max_id(DirEntry::table_name()), 0);
}

#[test]
fn collection_table_names() {
    assert_eq!(Collection::table_name(), "collections");
    assert_eq!(DirEntry::table_name(), "dir_entries");
    let mut db = Catalog::new();
    db.create_collection("a", "p", 1, 1).unwrap();
    db.create_collection("b", "p", 1, 1).unwrap();
    assert_eq!(db.max_id(Collection::table_name()), 2);
    assert_eq!(db.max_id(DirEntry::table_name()), 0);
}
