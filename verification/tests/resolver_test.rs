// The three resolvers, called directly on in-memory sources.

use std::sync::Arc;

use tabnas_multisource::{
    default_implicit_ext, preload_files_with, share_fs, FileResolver, IntoSharedPathFinder, MapFs,
    MapResolver, PathFinder, PkgResolver, PreloadOptions, Resolution, ResolverInput, SharedFs,
    SharedPathFinder, SortedMap,
};

fn texts(items: &[&str]) -> Vec<String> {
    items.iter().map(|item| item.to_string()).collect()
}

fn disk(entries: &[(&str, &str)]) -> MapFs {
    let mut filesystem = MapFs::new();
    for (path, content) in entries {
        filesystem.insert(path, content);
    }
    filesystem
}

fn input<'a>(
    path: &'a str,
    exts: &'a [String],
    source_path: Option<&str>,
    fs: &'a SharedFs,
) -> ResolverInput<'a> {
    ResolverInput {
        path,
        implicit_ext: exts,
        source_path: source_path.map(str::to_string),
        fs,
        cwd: None,
    }
}

fn found(resolution: &Resolution) -> Option<(String, String)> {
    if resolution.found {
        Some((
            resolution.spec.full.clone().unwrap_or_default(),
            resolution.src.clone().unwrap_or_default(),
        ))
    } else {
        None
    }
}

fn pair(full: &str, src: &str) -> Option<(String, String)> {
    Some((full.to_string(), src.to_string()))
}

fn sources(entries: &[(&str, &str)]) -> MapResolver {
    MapResolver::from_entries(
        entries
            .iter()
            .map(|(path, content)| (path.to_string(), content.to_string()))
            .collect(),
    )
}

// ---------------------------------------------------------------------
// The map resolver
// ---------------------------------------------------------------------

#[test]
fn the_map_resolver_serves_a_key_and_its_implicit_extensions() {
    let resolver = sources(&[("a.jsonic", "a:1"), ("b.json", "{}"), ("c/index.jsc", "c:3")]);
    let exts = default_implicit_ext();
    let fs = share_fs(MapFs::new());
    let here = input("", &exts, None, &fs);

    assert_eq!(found(&resolver.resolve(Some("a.jsonic"), &here)), pair("a.jsonic", "a:1"));
    assert_eq!(found(&resolver.resolve(Some("b"), &here)), pair("b.json", "{}"));
    assert_eq!(found(&resolver.resolve(Some("c"), &here)), pair("c/index.jsc", "c:3"));

    let hit = resolver.resolve(Some("b"), &here);
    assert_eq!(hit.spec.kind, "json");
    assert_eq!(hit.search, texts(&["b", "b.jsonic", "b.jsc", "b.json", "b/index.jsonic", "b/index.jsc", "b/index.json", "b/index.b.jsonic", "b/index.b.jsc", "b/index.b.json"]));
}

#[test]
fn the_map_resolver_reports_every_candidate_it_tried() {
    let resolver = sources(&[("a.jsonic", "a:1")]);
    let exts = texts(&[".jsonic"]);
    let fs = share_fs(MapFs::new());
    let miss = resolver.resolve(Some("zed"), &input("", &exts, None, &fs));
    assert!(!miss.found);
    assert_eq!(miss.src, None);
    assert_eq!(
        miss.search,
        texts(&["zed", "zed.jsonic", "zed/index.jsonic", "zed/index.zed.jsonic"])
    );

    let none = resolver.resolve(None, &input("", &exts, None, &fs));
    assert!(!none.found);
    assert!(none.search.is_empty());
}

#[test]
fn a_nested_map_reference_resolves_against_its_own_source() {
    let resolver = sources(&[("b/a.jsonic", "x:@c.jsonic"), ("b/c.jsonic", "c:1"), ("c.jsonic", "top")]);
    let exts = default_implicit_ext();
    let fs = share_fs(MapFs::new());
    let nested = resolver.resolve(Some("c.jsonic"), &input("", &exts, Some("b/a.jsonic"), &fs));
    assert_eq!(found(&nested), pair("b/c.jsonic", "c:1"));
    assert_eq!(nested.spec.base, "b");

    // A base that is not a key is used as it stands.
    let based = resolver.resolve(Some("c.jsonic"), &input("b", &exts, None, &fs));
    assert_eq!(found(&based), pair("b/c.jsonic", "c:1"));
}

#[test]
fn the_map_resolver_lists_its_paths_in_order() {
    let resolver = sources(&[("z.jsonic", ""), ("a.jsonic", ""), ("m/n.json", "")]);
    assert_eq!(resolver.paths(), vec!["a.jsonic", "m/n.json", "z.jsonic"]);
    assert!(MapResolver::new().paths().is_empty());
}

// ---------------------------------------------------------------------
// The file resolver
// ---------------------------------------------------------------------

#[test]
fn the_file_resolver_reads_an_injected_filesystem_directly() {
    let resolver = FileResolver::new().with_fs(disk(&[
        ("a.jsonic", "{a:1}"),
        ("b.jsonic", "{b:2}"),
        ("mod/index.jsonic", "{m:3}"),
        ("h/index.h.jsonic", "{h:7}"),
        ("data/cfg.json", r#"{"k":4}"#),
    ]));
    let exts = default_implicit_ext();
    let fs = share_fs(MapFs::new());
    let here = input("", &exts, None, &fs);

    assert_eq!(found(&resolver.resolve(Some("a.jsonic"), &here)), pair("a.jsonic", "{a:1}"));
    assert_eq!(found(&resolver.resolve(Some("b"), &here)), pair("b.jsonic", "{b:2}"));
    assert_eq!(found(&resolver.resolve(Some("mod"), &here)), pair("mod/index.jsonic", "{m:3}"));
    assert_eq!(found(&resolver.resolve(Some("h"), &here)), pair("h/index.h.jsonic", "{h:7}"));
    assert_eq!(
        found(&resolver.resolve(Some("data/cfg.json"), &here)),
        pair("data/cfg.json", r#"{"k":4}"#)
    );
}

#[test]
fn the_file_resolver_falls_back_to_the_options_filesystem() {
    let exts = default_implicit_ext();
    let fs = share_fs(disk(&[("a.jsonic", "{a:1}")]));
    let resolution = FileResolver::new().resolve(Some("a"), &input("", &exts, None, &fs));
    assert_eq!(found(&resolution), pair("a.jsonic", "{a:1}"));
    assert_eq!(resolution.spec.kind, "jsonic");
}

#[test]
fn the_file_resolver_chases_node_modules_then_extensions() {
    let resolver = FileResolver::new().with_fs(disk(&[("node_modules/lib/x.jsonic", "x:1")]));
    let exts = texts(&[".jsonic"]);
    let fs = share_fs(MapFs::new());
    let hit = resolver.resolve(Some("lib/x.jsonic"), &input("app", &exts, None, &fs));
    assert_eq!(found(&hit), pair("node_modules/lib/x.jsonic", "x:1"));
    assert_eq!(
        hit.search,
        texts(&[
            "app/lib/x.jsonic",
            "app/node_modules/lib/x.jsonic",
            "node_modules/lib/x.jsonic",
        ])
    );
}

#[test]
fn a_dotted_folder_does_not_invent_a_kind_for_the_file_resolver() {
    let resolver = FileResolver::new().with_fs(disk(&[
        ("my.app/conf.jsonic", "c:1"),
        ("my.app/mod/index.jsonic", "m:2"),
        ("my.app/plain.txt", "RAW"),
    ]));
    let exts = default_implicit_ext();
    let fs = share_fs(MapFs::new());
    let here = input("", &exts, None, &fs);
    assert_eq!(
        found(&resolver.resolve(Some("my.app/conf"), &here)),
        pair("my.app/conf.jsonic", "c:1")
    );
    assert_eq!(
        found(&resolver.resolve(Some("my.app/mod"), &here)),
        pair("my.app/mod/index.jsonic", "m:2")
    );
    let plain = resolver.resolve(Some("my.app/plain.txt"), &here);
    assert_eq!(found(&plain), pair("my.app/plain.txt", "RAW"));
    assert_eq!(plain.spec.kind, "txt");
}

struct UnderSub;

impl PathFinder for UnderSub {
    fn find(&self, reference: &str) -> String {
        format!("sub/{reference}")
    }
}

impl IntoSharedPathFinder for UnderSub {
    fn into_shared(self) -> SharedPathFinder {
        Arc::new(Box::new(self))
    }
}

#[test]
fn the_file_resolver_takes_a_pathfinder_directly() {
    let resolver = FileResolver::new()
        .with_pathfinder(UnderSub)
        .with_fs(disk(&[("sub/a.jsonic", "{a:1}")]));
    let exts = default_implicit_ext();
    let fs = share_fs(MapFs::new());
    let resolution = resolver.resolve(Some("a.jsonic"), &input("", &exts, None, &fs));
    assert_eq!(found(&resolution), pair("sub/a.jsonic", "{a:1}"));
    assert_eq!(resolution.spec.path.as_deref(), Some("sub/a.jsonic"));
}

#[test]
fn the_file_resolver_serves_preloaded_content_before_the_filesystem() {
    let mut preload: SortedMap<String> = SortedMap::new();
    preload.insert("p.jsonic".to_string(), "{p:4}".to_string());
    let resolver = FileResolver::new().with_fs(MapFs::new()).with_preload(preload);
    let exts = default_implicit_ext();
    let fs = share_fs(MapFs::new());
    assert_eq!(
        found(&resolver.resolve(Some("p.jsonic"), &input("", &exts, None, &fs))),
        pair("p.jsonic", "{p:4}")
    );
}

#[test]
fn a_preloaded_folder_resolves_with_no_filesystem_left() {
    let scanned = disk(&[("t/t01.jsonic", "{c:2}"), ("t/f01/x.jsonic", "{f:1}")]);
    let filemap = preload_files_with(
        &PreloadOptions::new(texts(&["t"]))
            .with_ext(texts(&[".jsonic"]))
            .with_recursive(true),
        &scanned,
    );
    let resolver = FileResolver::new().with_fs(MapFs::new()).with_preload(filemap);
    let exts = default_implicit_ext();
    let fs = share_fs(MapFs::new());
    let here = input("t", &exts, None, &fs);
    assert_eq!(found(&resolver.resolve(Some("t01.jsonic"), &here)), pair("t/t01.jsonic", "{c:2}"));
    assert_eq!(found(&resolver.resolve(Some("f01/x"), &here)), pair("t/f01/x.jsonic", "{f:1}"));
}

#[test]
fn the_file_resolver_reports_a_missing_source_directly() {
    let resolver = FileResolver::new().with_fs(MapFs::new());
    let exts = default_implicit_ext();
    let fs = share_fs(MapFs::new());
    let miss = resolver.resolve(Some("missing.jsonic"), &input("", &exts, None, &fs));
    assert!(!miss.found);
    assert_eq!(miss.search[0], "missing.jsonic");
}

#[test]
fn a_root_confines_every_file_reference() {
    let resolver = FileResolver::new()
        .with_fs(disk(&[
            ("srv/app/main.jsonic", "{ok:1}"),
            ("srv/secret.jsonic", "{leak:1}"),
            ("srv/appdata/other.jsonic", "{sibling:1}"),
            ("secret.jsonic", "{leak:1}"),
        ]))
        .with_root("srv/app");
    let exts = default_implicit_ext();
    let fs = share_fs(MapFs::new());
    let here = input("srv/app", &exts, None, &fs);

    assert_eq!(
        found(&resolver.resolve(Some("main.jsonic"), &here)),
        pair("srv/app/main.jsonic", "{ok:1}")
    );
    for escape in [
        "../secret.jsonic",
        "../appdata/other.jsonic",
        "/srv/secret.jsonic",
        "./../secret.jsonic",
        "../../secret.jsonic",
        "/secret.jsonic",
        "./sub/../../secret.jsonic",
        "..",
        "../",
    ] {
        assert!(
            !resolver.resolve(Some(escape), &here).found,
            "{escape} must not escape the root"
        );
    }
}

#[test]
fn a_root_confines_a_reference_found_inside_a_source() {
    let resolver = FileResolver::new()
        .with_fs(disk(&[
            ("srv/app/main.jsonic", r#"{leak:@"../secret.jsonic"}"#),
            ("srv/secret.jsonic", "{leak:1}"),
        ]))
        .with_root("srv/app");
    let exts = default_implicit_ext();
    let fs = share_fs(MapFs::new());
    let nested = input("srv/app", &exts, Some("srv/app/main.jsonic"), &fs);
    assert!(!resolver.resolve(Some("../secret.jsonic"), &nested).found);
}

#[test]
fn without_a_root_a_file_reference_still_climbs() {
    let resolver = FileResolver::new().with_fs(disk(&[("srv/secret.jsonic", "{leak:1}")]));
    let exts = default_implicit_ext();
    let fs = share_fs(MapFs::new());
    assert_eq!(
        found(&resolver.resolve(Some("../secret.jsonic"), &input("srv/app", &exts, None, &fs))),
        pair("srv/secret.jsonic", "{leak:1}")
    );
}

// ---------------------------------------------------------------------
// The package resolver
// ---------------------------------------------------------------------

fn packages() -> MapFs {
    disk(&[
        ("node_modules/mypkg/zed.jsonic", "{zed:99}"),
        ("node_modules/idxpkg/index.jsonic", "{i:5}"),
        ("node_modules/mainpkg/package.json", r#"{"main":"main.jsonic"}"#),
        ("node_modules/mainpkg/main.jsonic", "{z:11}"),
        ("node_modules/badpkg/package.json", "not json"),
        ("node_modules/badpkg/main.jsonic", "{bad:1}"),
        ("node_modules/numpkg/package.json", r#"{"main":7}"#),
        ("node_modules/extpkg/package.json", r#"{"main":"lib/entry"}"#),
        ("node_modules/extpkg/lib/entry.json", r#"{"e":1}"#),
    ])
}

#[test]
fn the_pkg_resolver_finds_a_subpath_an_index_and_a_main_directly() {
    let resolver = PkgResolver::new().with_paths(texts(&["."])).with_fs(packages());
    let exts = default_implicit_ext();
    let fs = share_fs(MapFs::new());
    let here = input("", &exts, None, &fs);

    assert_eq!(
        found(&resolver.resolve(Some("mypkg/zed.jsonic"), &here)),
        pair("node_modules/mypkg/zed.jsonic", "{zed:99}")
    );
    assert_eq!(
        found(&resolver.resolve(Some("idxpkg"), &here)),
        pair("node_modules/idxpkg/index.jsonic", "{i:5}")
    );
    assert_eq!(
        found(&resolver.resolve(Some("mainpkg"), &here)),
        pair("node_modules/mainpkg/main.jsonic", "{z:11}")
    );
    assert_eq!(
        found(&resolver.resolve(Some("extpkg"), &here)),
        pair("node_modules/extpkg/lib/entry.json", r#"{"e":1}"#)
    );
}

#[test]
fn a_manifest_that_is_not_json_or_names_no_string_main_finds_nothing() {
    let resolver = PkgResolver::new().with_paths(texts(&["."])).with_fs(packages());
    let exts = texts(&[".jsonic"]);
    let fs = share_fs(MapFs::new());
    let here = input("", &exts, None, &fs);

    let bad = resolver.resolve(Some("badpkg"), &here);
    assert!(!bad.found);
    assert_eq!(
        bad.search,
        texts(&[
            "node_modules/badpkg",
            "node_modules/badpkg.jsonic",
            "node_modules/badpkg/index.jsonic",
            "node_modules/badpkg/index.badpkg.jsonic",
            "node_modules/badpkg/package.json",
        ])
    );
    assert!(!resolver.resolve(Some("numpkg"), &here).found);
}

#[test]
fn the_pkg_resolver_walks_up_to_find_node_modules_directly() {
    let resolver = PkgResolver::new().with_paths(texts(&["a/b/c"])).with_fs(disk(&[
        ("node_modules/mypkg/zed.jsonic", "{zed:99}"),
        ("a/b/c/.keep", ""),
    ]));
    let exts = default_implicit_ext();
    let fs = share_fs(MapFs::new());
    let hit = resolver.resolve(Some("mypkg/zed.jsonic"), &input("", &exts, None, &fs));
    assert_eq!(found(&hit), pair("node_modules/mypkg/zed.jsonic", "{zed:99}"));
    assert_eq!(
        hit.search,
        texts(&[
            "a/b/c/node_modules/mypkg/zed.jsonic",
            "a/b/c/node_modules/mypkg/zed.jsonic/package.json",
            "a/b/node_modules/mypkg/zed.jsonic",
            "a/b/node_modules/mypkg/zed.jsonic/package.json",
            "a/node_modules/mypkg/zed.jsonic",
            "a/node_modules/mypkg/zed.jsonic/package.json",
            "node_modules/mypkg/zed.jsonic",
        ])
    );
}

#[test]
fn a_relative_reference_inside_a_package_resolves_beside_its_source() {
    let resolver = PkgResolver::new().with_paths(texts(&["."])).with_fs(disk(&[
        ("node_modules/relpkg/index.jsonic", r#"{b:@"./child.jsonic"}"#),
        ("node_modules/relpkg/child.jsonic", "{x:10}"),
        ("node_modules/relpkg/leaf.jsonic", "{y:20}"),
        ("node_modules/relpkg/sub/deep.jsonic", "{z:30}"),
    ]));
    let exts = default_implicit_ext();
    let fs = share_fs(MapFs::new());
    let nested = input("", &exts, Some("node_modules/relpkg/index.jsonic"), &fs);
    assert_eq!(
        found(&resolver.resolve(Some("./child.jsonic"), &nested)),
        pair("node_modules/relpkg/child.jsonic", "{x:10}")
    );
    assert_eq!(
        found(&resolver.resolve(Some("./leaf"), &nested)),
        pair("node_modules/relpkg/leaf.jsonic", "{y:20}")
    );
    assert_eq!(
        found(&resolver.resolve(Some("./sub/deep.jsonic"), &nested)),
        pair("node_modules/relpkg/sub/deep.jsonic", "{z:30}")
    );
}

#[test]
fn the_pkg_resolver_reports_a_missing_package_directly() {
    let resolver = PkgResolver::new().with_paths(texts(&["."])).with_fs(MapFs::new());
    let exts = default_implicit_ext();
    let fs = share_fs(MapFs::new());
    let here = input("", &exts, None, &fs);
    assert!(!resolver.resolve(Some("nopkg/zed.jsonic"), &here).found);
    assert!(!resolver.resolve(Some(""), &here).found);
    assert!(!resolver.resolve(None, &here).found);
}

#[test]
fn the_pkg_resolver_takes_a_root_too_directly() {
    let resolver = PkgResolver::new()
        .with_paths(texts(&["srv"]))
        .with_root("srv")
        .with_fs(disk(&[
            ("srv/node_modules/mypkg/zed.jsonic", "{zed:99}"),
            ("node_modules/mypkg/zed.jsonic", "{zed:1}"),
            ("srv/node_modules/inside/index.jsonic", "{in:1}"),
            ("node_modules/outside/index.jsonic", "{out:1}"),
        ]));
    let exts = default_implicit_ext();
    let fs = share_fs(MapFs::new());
    let here = input("", &exts, None, &fs);
    assert_eq!(
        found(&resolver.resolve(Some("mypkg/zed.jsonic"), &here)),
        pair("srv/node_modules/mypkg/zed.jsonic", "{zed:99}")
    );
    assert_eq!(
        found(&resolver.resolve(Some("inside"), &here)),
        pair("srv/node_modules/inside/index.jsonic", "{in:1}")
    );
    assert!(!resolver.resolve(Some("outside"), &here).found);
}

#[test]
fn the_pkg_resolver_starts_from_dot_on_an_injected_filesystem() {
    let resolver = PkgResolver::new();
    let exts = default_implicit_ext();
    let fs = share_fs(packages());
    assert_eq!(
        found(&resolver.resolve(Some("idxpkg"), &input("", &exts, None, &fs))),
        pair("node_modules/idxpkg/index.jsonic", "{i:5}")
    );
}

#[test]
fn a_package_main_is_searched_with_its_extensions_and_nothing_else() {
    let resolver = PkgResolver::new();
    let exts = texts(&[".jsonic", ".json"]);
    let fs = share_fs(packages());

    let mut search = texts(&["before"]);
    let hit = resolver.search_main(
        &fs,
        "node_modules/extpkg",
        Some("lib/entry".to_string()),
        &exts,
        &mut search,
    );
    assert_eq!(
        hit,
        Some((
            "node_modules/extpkg/lib/entry.json".to_string(),
            r#"{"e":1}"#.to_string()
        ))
    );
    assert_eq!(
        search,
        texts(&[
            "before",
            "node_modules/extpkg/lib/entry",
            "node_modules/extpkg/lib/entry.jsonic",
            "node_modules/extpkg/lib/entry.json",
        ])
    );

    let mut untouched = Vec::new();
    assert_eq!(resolver.search_main(&fs, "node_modules/extpkg", None, &exts, &mut untouched), None);
    assert_eq!(
        resolver.search_main(&fs, "node_modules/extpkg", Some(String::new()), &exts, &mut untouched),
        None
    );
    assert!(untouched.is_empty());
}
