// The in-memory filesystem, the lexical path helpers and the sorted map.

use tabnas_multisource::lexical::{clean, lexical, within_root};
use tabnas_multisource::pkg_resolver::is_relative_ref;
use tabnas_multisource::{DirEntry, MapFs, SortedMap, SourceFs};

fn entry(name: &str, is_dir: bool) -> DirEntry {
    DirEntry {
        name: name.to_string(),
        is_dir,
    }
}

#[test]
fn a_map_filesystem_cleans_its_keys() {
    let mut disk = MapFs::new();
    disk.insert("./a/../b.jsonic", "b:1").insert("c\\d.jsonic", "d:1");
    assert_eq!(disk.paths(), vec!["b.jsonic", "c/d.jsonic"]);
    assert_eq!(disk.read_file("b.jsonic"), Some("b:1".to_string()));
    assert_eq!(disk.read_file("/c/./d.jsonic"), Some("d:1".to_string()));
    assert_eq!(disk.read_file("c"), None);

    let replaced = disk.with("b.jsonic", "b:2");
    assert_eq!(replaced.read_file("b.jsonic"), Some("b:2".to_string()));
}

#[test]
fn a_map_filesystem_lists_folders_implied_by_its_keys() {
    let disk = MapFs::new()
        .with("t/a.jsonic", "")
        .with("t/f01/b.jsonic", "")
        .with("t/f01/c/d.jsonic", "")
        .with("top.jsonic", "");
    assert_eq!(
        disk.read_dir("t"),
        Some(vec![entry("a.jsonic", false), entry("f01", true)])
    );
    assert_eq!(
        disk.read_dir("t/f01/"),
        Some(vec![entry("b.jsonic", false), entry("c", true)])
    );
    assert_eq!(
        disk.read_dir("."),
        Some(vec![entry("t", true), entry("top.jsonic", false)])
    );
    assert_eq!(disk.read_dir("nowhere"), None);
    assert_eq!(MapFs::new().read_dir("."), Some(Vec::new()));
}

#[test]
fn a_map_filesystem_joins_and_climbs_lexically() {
    let disk = MapFs::new();
    assert_eq!(disk.join(&["a", "b/../c", "d.jsonic"]), "a/c/d.jsonic");
    assert_eq!(disk.join(&["", "node_modules", "x"]), "node_modules/x");
    assert_eq!(disk.dir("a/b/c.jsonic"), "a/b");
    assert_eq!(disk.dir("c.jsonic"), ".");
    assert_eq!(disk.dir("."), ".");
    assert_eq!(disk.canon("./x/../y"), "y");
    assert_eq!(disk.real_path("./x/../y"), Some("y".to_string()));
    assert!(!disk.native_paths());
}

#[test]
fn clean_resolves_dots_and_never_climbs_above_the_root() {
    assert_eq!(clean("a/./b/../c"), "a/c");
    assert_eq!(clean("../../a"), "a");
    assert_eq!(clean(""), ".");
    assert_eq!(clean("/"), ".");
    assert_eq!(clean("a\\b"), "a/b");
}

#[test]
fn lexical_keeps_a_leading_climb_and_the_root() {
    assert_eq!(lexical("/srv/app/../x", '/'), "/srv/x");
    assert_eq!(lexical("../a", '/'), "../a");
    assert_eq!(lexical("a/..", '/'), ".");
    assert_eq!(lexical("/..", '/'), "/..");
}

#[test]
fn within_root_compares_whole_segments() {
    assert!(within_root("srv/app/x.jsonic", "srv/app", false, '/'));
    assert!(within_root("srv/app", "srv/app", false, '/'));
    assert!(!within_root("srv/appdata/x.jsonic", "srv/app", false, '/'));
    assert!(!within_root("srv/app/../secret.jsonic", "srv/app", false, '/'));
    assert!(within_root("anything", ".", false, '/'));
    assert!(within_root("/srv/app/x", "/srv/app/", true, '/'));
    assert!(!within_root("/srv/appdata", "/srv/app", true, '/'));
}

#[test]
fn a_native_path_also_splits_at_the_platform_separator() {
    assert_eq!(lexical("C:\\srv\\app\\..\\x", '\\'), "C:/srv/x");
    assert_eq!(lexical("\\srv\\app", '\\'), "/srv/app");
    assert_eq!(lexical("C:\\srv\\app", '/'), "C:\\srv\\app");
    assert!(within_root("C:\\srv\\app\\x.jsonic", "C:\\srv\\app", true, '\\'));
    assert!(within_root("C:\\srv\\app\\x.jsonic", "C:/srv/app", true, '\\'));
    assert!(!within_root("C:\\srv\\appdata\\x.jsonic", "C:\\srv\\app", true, '\\'));
    assert!(!within_root("C:\\srv\\app\\..\\secret.jsonic", "C:\\srv\\app", true, '\\'));
    assert!(!within_root("C:\\srv\\app\\x.jsonic", "C:\\srv\\app", true, '/'));
}

#[test]
fn a_relative_reference_starts_with_a_dot_segment() {
    for relative in [".", "..", "./a", "../a", ".\\a", "..\\a"] {
        assert!(is_relative_ref(relative), "{relative}");
    }
    for package in ["a", ".a", "..a", "a/./b", ""] {
        assert!(!is_relative_ref(package), "{package}");
    }
}

#[test]
fn a_sorted_map_keeps_one_value_per_key_in_order() {
    let mut map: SortedMap<u32> = SortedMap::new();
    map.insert("b".to_string(), 2);
    map.insert("a".to_string(), 1);
    map.insert("c".to_string(), 3);
    map.insert("b".to_string(), 20);
    assert_eq!(map.keys_in_order(), vec!["a", "b", "c"]);
    assert_eq!(map.get("b"), Some(&20));
    assert_eq!(map.len(), 3);
    assert_eq!(map.remove("b"), Some(20));
    assert_eq!(map.remove("b"), None);
    assert_eq!(map.get("b"), None);
    assert_eq!(map.keys_in_order(), vec!["a", "c"]);
    assert_eq!(map.locate("bb"), Err(1));
    assert_eq!(map.locate("c"), Ok(1));
}

#[test]
fn cleaning_a_cleaned_path_changes_nothing() {
    for path in ["a/./b/../c", "../x//y/", "\\a\\b", "", ".", "..", "a/b/c"] {
        let once = clean(path);
        assert_eq!(clean(&once), once, "{path}");
    }
}

#[test]
fn a_cleaned_path_is_slash_joined_plain_segments() {
    for path in ["\\a\\b\\", "/x/./y/", "a//b", "./..", "a/b/../../.."] {
        let cleaned = clean(path);
        assert!(!cleaned.starts_with('/'), "{path}");
        assert!(!cleaned.ends_with('/'), "{path}");
        assert!(!cleaned.contains('\\'), "{path}");
        if cleaned != "." {
            for segment in cleaned.split('/') {
                assert!(!segment.is_empty() && segment != "." && segment != "..", "{path}");
            }
        }
    }
    assert_eq!(clean("\\a\\b\\"), "a/b");
    assert_eq!(clean("a/b/../../.."), ".");
}
