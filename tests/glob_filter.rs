use palica::catalog::Catalog;
use palica::dblayer::{DbError, GlobFilter, GlobFilterToPattern, GlobPattern};
use palica::glob_filter::{Filter, FilterItem};

// In these tests `hits[i]` is whether pattern `i` matches the path, worked
// out by hand for the regular expressions named in each filter.

fn filter1_patterns() -> Filter {
    Filter {
        patterns: vec![r"^.+$".to_owned(), r"/\.thumbnails$".to_owned()],
        items: vec![
            FilterItem { pattern_index: 0, includes: true },
            FilterItem { pattern_index: 1, includes: false },
        ],
    }
}

#[test]
fn filter1() {
    let f = filter1_patterns();
    // "abc"
    assert_eq!(f.admits(&vec![true, false]), true);
    // "/abc/def/.thumbnails/jkk"
    assert_eq!(f.admits(&vec![true, false]), true);
    // "/abc/def/.thumbnails"
    assert_eq!(f.admits(&vec![true, true]), false);
}

#[test]
fn filter2() {
    let f = Filter {
        patterns: vec![
            r"^.+$".to_owned(),
            r"/\.thumbnails$".to_owned(),
            r"/\.png$".to_owned(),
        ],
        items: vec![
            FilterItem { pattern_index: 0, includes: false },
            FilterItem { pattern_index: 2, includes: true },
            FilterItem { pattern_index: 1, includes: true },
        ],
    };
    // "abc"
    assert_eq!(f.admits(&vec![true, false, false]), false);
    // "/abc/def/.thumbnails/jkk"
    assert_eq!(f.admits(&vec![true, false, false]), false);
    // "/abc/def/.thumbnails"
    assert_eq!(f.admits(&vec![true, true, false]), true);
    // "/abc/def/.png"
    assert_eq!(f.admits(&vec![true, false, true]), true);
}

#[test]
fn thumbnails_directory_excluded_its_contents_kept() {
    let f = filter1_patterns();
    // "/a/.thumbnails": both patterns match, the later exclusion wins
    assert_eq!(f.admits(&vec![true, true]), false);
    // "/a/.thumbnails/x": only the first pattern matches
    assert_eq!(f.admits(&vec![true, false]), true);
}

#[test]
fn empty_filter_excludes_everything() {
    let f = Filter { patterns: vec!["x".to_owned()], items: vec![] };
    assert_eq!(f.admits(&vec![true]), false);
    assert_eq!(f.admits(&vec![false]), false);
}

#[test]
fn no_matching_rule_excludes() {
    let f = filter1_patterns();
    assert_eq!(f.admits(&vec![false, false]), false);
}

#[test]
fn later_broad_rule_overrides_earlier_narrow_one() {
    let f = Filter {
        patterns: vec!["narrow".to_owned(), "broad".to_owned()],
        items: vec![
            FilterItem { pattern_index: 0, includes: false },
            FilterItem { pattern_index: 1, includes: true },
        ],
    };
    assert_eq!(f.admits(&vec![true, true]), true);
    assert_eq!(f.admits(&vec![true, false]), false);
}

#[test]
fn rule_verdict() {
    let item = FilterItem { pattern_index: 1, includes: false };
    assert_eq!(item.verdict(&vec![true, true]), Some(false));
    assert_eq!(item.verdict(&vec![true, false]), None);
}

fn pattern(id: i64, text: &str) -> GlobPattern {
    GlobPattern { id, regexp: text.to_owned() }
}

fn reference(id: i64, filter: i64, pattern: i64, includes: bool, position: i32) -> GlobFilterToPattern {
    GlobFilterToPattern {
        id,
        glob_filter_id: filter,
        glob_pattern_id: pattern,
        includes,
        position,
    }
}

/// The default filter a new catalogue file starts with: everything, then
/// nothing under a `.git` directory.
fn default_filter_catalog() -> Catalog {
    let mut db = Catalog::new();
    db.create_glob_pattern(&pattern(1, r"^.+$")).unwrap();
    db.create_glob_pattern(&pattern(2, r"/\.git(/|$)")).unwrap();
    db.create_glob_filter(&GlobFilter { id: 1, name: "default".to_owned() }).unwrap();
    db.create_glob_filter_to_pattern(&reference(1, 1, 1, true, 1)).unwrap();
    db.create_glob_filter_to_pattern(&reference(2, 1, 2, false, 2)).unwrap();
    db
}

#[test]
fn glob_filter_by_id_test() {
    let db = default_filter_catalog();
    let default_filter = db.glob_filter_by_id(1).unwrap();
    let hits_for = |path: &str| -> Vec<bool> {
        default_filter
            .patterns
            .iter()
            .map(|p| if p == r"^.+$" { !path.is_empty() } else { path.contains("/.git/") })
            .collect()
    };
    assert!(default_filter.admits(&hits_for("/asdasd/abra.jpeg")));
    assert_eq!(default_filter.admits(&hits_for("asdasd/.git/abra.jpeg")), false);
}

#[test]
fn resolution_orders_by_position_and_lists_each_text_once() {
    let mut db = Catalog::new();
    db.create_glob_pattern(&pattern(1, r"^.+$")).unwrap();
    db.create_glob_pattern(&pattern(2, r"/\.git/")).unwrap();
    db.create_glob_pattern(&pattern(3, r"^.+$")).unwrap();
    db.create_glob_filter(&GlobFilter { id: 1, name: "default".to_owned() }).unwrap();
    db.create_glob_filter(&GlobFilter { id: 2, name: "other".to_owned() }).unwrap();
    // stored out of position order; one row belongs to another filter
    db.create_glob_filter_to_pattern(&reference(1, 1, 2, false, 20)).unwrap();
    db.create_glob_filter_to_pattern(&reference(2, 2, 1, false, 5)).unwrap();
    db.create_glob_filter_to_pattern(&reference(3, 1, 1, true, 10)).unwrap();
    db.create_glob_filter_to_pattern(&reference(4, 1, 3, true, 30)).unwrap();

    let f = db.glob_filter_by_id(1).unwrap();
    assert_eq!(f.items.len(), 3);
    assert_eq!(f.patterns.len(), 2);
    let texts: Vec<&str> = f.items.iter().map(|i| f.patterns[i.pattern_index].as_str()).collect();
    assert_eq!(texts, vec![r"^.+$", r"/\.git/", r"^.+$"]);
    let polarity: Vec<bool> = f.items.iter().map(|i| i.includes).collect();
    assert_eq!(polarity, vec![true, false, true]);
}

#[test]
fn filter_with_missing_pattern_is_an_integrity_error() {
    let mut db = Catalog::new();
    db.create_glob_pattern(&pattern(1, "a")).unwrap();
    db.create_glob_filter(&GlobFilter { id: 1, name: "f".to_owned() }).unwrap();
    db.create_glob_filter_to_pattern(&reference(1, 1, 1, true, 1)).unwrap();
    db.create_glob_filter_to_pattern(&reference(2, 1, 9, true, 2)).unwrap();
    match db.glob_filter_by_id(1) {
        Err(e) => assert_eq!(e, DbError::FilterToGlobIntegrityError { filter_id: 1, glob_id: 9 }),
        Ok(_) => panic!("a filter naming a missing pattern resolved"),
    }
}

#[test]
fn unknown_filter_resolves_to_empty_chain() {
    let db = Catalog::new();
    let f = db.glob_filter_by_id(5).unwrap();
    assert!(f.items.is_empty());
    assert!(f.patterns.is_empty());
}

#[test]
fn patterns_and_filters_enumerate_sorted() {
    let mut db = Catalog::new();
    db.create_glob_pattern(&pattern(1, "zz")).unwrap();
    db.create_glob_pattern(&pattern(2, "aa")).unwrap();
    db.create_glob_filter(&GlobFilter { id: 1, name: "second".to_owned() }).unwrap();
    db.create_glob_filter(&GlobFilter { id: 2, name: "first".to_owned() }).unwrap();
    db.create_glob_filter_to_pattern(&reference(1, 1, 1, true, 9)).unwrap();
    db.create_glob_filter_to_pattern(&reference(2, 1, 2, true, 3)).unwrap();
    let ps: Vec<String> = db.enum_glob_patterns().into_iter().map(|p| p.regexp).collect();
    assert_eq!(ps, vec!["aa".to_owned(), "zz".to_owned()]);
    let fs: Vec<String> = db.enum_glob_filters().into_iter().map(|f| f.name).collect();
    assert_eq!(fs, vec!["first".to_owned(), "second".to_owned()]);
    let pos: Vec<i32> = db.filter_patterns(1).into_iter().map(|r| r.position).collect();
    assert_eq!(pos, vec![3, 9]);
}
