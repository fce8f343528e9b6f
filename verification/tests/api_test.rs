// The path helpers and the folder preload, read through the public API.

use tabnas_multisource::{
    build_potentials, ext_kind, preload_files_with, resolve_path_spec, source_dir, MapFs,
    PreloadOptions, SortedMap,
};

fn texts(items: &[&str]) -> Vec<String> {
    items.iter().map(|item| item.to_string()).collect()
}

fn disk(entries: &[(&str, &str)]) -> MapFs {
    let mut filesystem = MapFs::new();
    for (path, content) in entries {
        filesystem.insert(path, content);
    }
    filesystem
}

fn keys(map: &SortedMap<String>) -> Vec<String> {
    map.keys_in_order().into_iter().map(str::to_string).collect()
}

fn entries(map: &SortedMap<String>) -> Vec<(String, String)> {
    (0..map.len())
        .map(|index| (map.key_at(index).clone(), map.value_at(index).clone()))
        .collect()
}

#[test]
fn ext_kind_reads_the_last_segment_only() {
    assert_eq!(ext_kind(Some("a.jsonic")), "jsonic");
    assert_eq!(ext_kind(Some("a.d/foo")), "");
    assert_eq!(ext_kind(Some("a.d/foo.txt")), "txt");
    assert_eq!(ext_kind(Some("noext")), "");
    assert_eq!(ext_kind(None), "");
}

#[test]
fn resolve_path_spec_normalises_a_reference() {
    let spec = resolve_path_spec(Some("a.jsonic"), "base");
    assert_eq!(spec.full.as_deref(), Some("base/a.jsonic"));
    assert_eq!(spec.kind, "jsonic");
    assert!(!spec.abs);

    let spec = resolve_path_spec(Some("/abs/a.json"), "base");
    assert_eq!(spec.full.as_deref(), Some("/abs/a.json"));
    assert_eq!(spec.kind, "json");
    assert!(spec.abs);

    let spec = resolve_path_spec(Some("noext"), "");
    assert_eq!(spec.full.as_deref(), Some("noext"));
    assert_eq!(spec.kind, "");

    let spec = resolve_path_spec(None, "base");
    assert_eq!(spec.full, None);
}

#[test]
fn build_potentials_covers_extensions_and_index_files() {
    let exts: Vec<String> = [".jsonic", ".jsc", ".json"]
        .into_iter()
        .map(str::to_string)
        .collect();

    let potentials = build_potentials("foo", &exts);
    assert_eq!(potentials[0], "foo");
    assert_eq!(potentials[1], "foo.jsonic");
    assert_eq!(potentials[2], "foo.jsc");
    assert_eq!(potentials[3], "foo.json");
    assert_eq!(potentials[4], "foo/index.jsonic");
    assert!(potentials.contains(&"foo/index.foo.jsonic".to_string()));

    assert_eq!(build_potentials("bar.json", &exts), vec!["bar.json"]);
    assert!(build_potentials("", &exts).is_empty());
}

#[test]
fn source_dir_keeps_a_bare_key_bare() {
    assert_eq!(source_dir("a.jsonic"), "");
    assert_eq!(source_dir("b/a.jsonic"), "b");
    assert_eq!(source_dir("/a.jsonic"), "/");
    assert_eq!(source_dir("/b/a.jsonic"), "/b");
}

#[test]
fn preload_defaults_to_jsonic_and_json() {
    let disk = disk(&[
        ("t/t01.jsonic", "{c:2}"),
        ("t/k03.json", r#"{"g":4}"#),
        ("t/k02.js", "module.exports={e:3}"),
        ("t/f01/f01t01.jsonic", "{f:1}"),
    ]);

    let loaded = preload_files_with(&PreloadOptions::new(texts(&["t"])), &disk);
    assert_eq!(
        keys(&loaded),
        vec!["t/k03.json".to_string(), "t/t01.jsonic".to_string()]
    );
}

#[test]
fn preload_extensions_are_normalised_and_replace_the_default() {
    let disk = disk(&[("t/a.jsonic", "{a:1}"), ("t/b.js", "module.exports={}")]);

    let dotted = preload_files_with(
        &PreloadOptions::new(texts(&["t"])).with_ext(texts(&[".js"])),
        &disk,
    );
    let bare = preload_files_with(
        &PreloadOptions::new(texts(&["t"])).with_ext(texts(&["js"])),
        &disk,
    );
    assert_eq!(entries(&dotted), entries(&bare));
    assert_eq!(keys(&dotted), vec!["t/b.js"]);
}

#[test]
fn preload_descends_only_when_asked() {
    let disk = disk(&[("t/a.jsonic", "{a:1}"), ("t/f01/b.jsonic", "{b:2}")]);

    let flat = preload_files_with(
        &PreloadOptions::new(texts(&["t"])).with_ext(texts(&[".jsonic"])),
        &disk,
    );
    assert!(
        !keys(&flat).iter().any(|key| key.contains("f01")),
        "{flat:?}"
    );
    assert!(flat.len() != 0);

    let deep = preload_files_with(
        &PreloadOptions::new(texts(&["t"]))
            .with_ext(texts(&[".jsonic"]))
            .with_recursive(true),
        &disk,
    );
    assert!(
        keys(&deep).iter().any(|key| key.contains("f01")),
        "{deep:?}"
    );
}

#[test]
fn preload_combines_several_folders() {
    let disk = disk(&[("t/a.jsonic", "{a:1}"), ("t/f01/b.jsonic", "{b:2}")]);
    let combined = preload_files_with(
        &PreloadOptions::new(texts(&["t", "t/f01"])).with_ext(texts(&[".jsonic"])),
        &disk,
    );
    assert_eq!(
        keys(&combined),
        vec!["t/a.jsonic".to_string(), "t/f01/b.jsonic".to_string()]
    );
}

#[test]
fn preload_skips_a_missing_folder() {
    let disk = MapFs::new();
    let loaded = preload_files_with(
        &PreloadOptions::new(texts(&["/nonexistent/folder/path"])),
        &disk,
    );
    assert!(loaded.len() == 0, "{loaded:?}");
}

#[test]
fn preload_reads_the_content_of_each_file() {
    let disk = disk(&[("t/a.jsonic", "{a:1}"), ("t/f01/b.json", "{}")]);
    let loaded = preload_files_with(
        &PreloadOptions::new(texts(&["t"])).with_recursive(true),
        &disk,
    );
    assert_eq!(
        entries(&loaded),
        vec![
            ("t/a.jsonic".to_string(), "{a:1}".to_string()),
            ("t/f01/b.json".to_string(), "{}".to_string()),
        ]
    );
}

#[test]
fn preload_extensions_default_and_gain_a_dot() {
    assert_eq!(
        PreloadOptions::new(texts(&["t"])).extensions(),
        texts(&[".jsonic", ".json"])
    );
    assert_eq!(
        PreloadOptions::new(texts(&["t"]))
            .with_ext(texts(&["txt", ".md"]))
            .extensions(),
        texts(&[".txt", ".md"])
    );
}
