// Resolution over a filesystem that addresses files by native paths: the
// package search starts from the working directory, and a root is
// compared lexically, segment by segment.

use std::sync::Arc;

use tabnas_multisource::{
    default_implicit_ext, share_fs, DirEntry, FileResolver, IntoSharedFs, MapFs, PkgResolver,
    ResolverInput, SharedFs, SourceFs,
};

/// An in-memory filesystem that reports native paths.
struct Native(MapFs);

impl SourceFs for Native {
    fn read_file(&self, path: &str) -> Option<String> {
        self.0.read_file(path)
    }

    fn read_dir(&self, path: &str) -> Option<Vec<DirEntry>> {
        self.0.read_dir(path)
    }

    fn join(&self, parts: &[&str]) -> String {
        self.0.join(parts)
    }

    fn dir(&self, path: &str) -> String {
        self.0.dir(path)
    }

    fn canon(&self, path: &str) -> String {
        self.0.canon(path)
    }

    fn real_path(&self, path: &str) -> Option<String> {
        self.0.real_path(path)
    }

    fn native_paths(&self) -> bool {
        true
    }

    fn separator(&self) -> char {
        '/'
    }
}

impl IntoSharedFs for Native {
    fn into_shared(self) -> SharedFs {
        Arc::new(Box::new(self))
    }
}

fn native(entries: &[(&str, &str)]) -> Native {
    let mut filesystem = MapFs::new();
    for (path, content) in entries {
        filesystem.insert(path, content);
    }
    Native(filesystem)
}

#[test]
fn on_a_native_filesystem_the_package_search_starts_at_the_working_directory() {
    let fs = share_fs(native(&[
        ("work/node_modules/a/index.jsonic", "{a:1}"),
        ("node_modules/b/index.jsonic", "{b:2}"),
    ]));
    let exts = default_implicit_ext();
    let resolver = PkgResolver::new();

    let from_work = ResolverInput {
        path: "",
        implicit_ext: &exts,
        source_path: None,
        fs: &fs,
        cwd: Some("work".to_string()),
    };
    let a = resolver.resolve(Some("a"), &from_work);
    assert!(a.found);
    assert_eq!(a.spec.full.as_deref(), Some("work/node_modules/a/index.jsonic"));
    assert_eq!(a.src.as_deref(), Some("{a:1}"));
    let b = resolver.resolve(Some("b"), &from_work);
    assert_eq!(b.spec.full.as_deref(), Some("node_modules/b/index.jsonic"));

    // With no working directory known there is nowhere to start.
    let nowhere = ResolverInput {
        cwd: None,
        ..from_work
    };
    let missing = resolver.resolve(Some("a"), &nowhere);
    assert!(!missing.found);
    assert!(missing.search.is_empty());
}

#[test]
fn on_a_native_filesystem_a_root_is_compared_lexically() {
    let fs = share_fs(native(&[
        ("srv/app/main.jsonic", "{ok:1}"),
        ("srv/secret.jsonic", "{leak:1}"),
    ]));
    let exts = default_implicit_ext();
    let resolver = FileResolver::new().with_root("srv/app");
    let here = ResolverInput {
        path: "srv/app",
        implicit_ext: &exts,
        source_path: None,
        fs: &fs,
        cwd: None,
    };
    assert!(resolver.resolve(Some("main.jsonic"), &here).found);
    assert!(!resolver.resolve(Some("../secret.jsonic"), &here).found);
}

/// An in-memory filesystem with symbolic links: a path under a link reads
/// whatever lies under the link's target.
struct Linked {
    files: MapFs,
    links: Vec<(String, String)>,
}

impl Linked {
    fn follow(&self, path: &str) -> String {
        let cleaned = self.files.canon(path);
        for (link, target) in &self.links {
            if cleaned == *link {
                return target.clone();
            }
            if let Some(rest) = cleaned.strip_prefix(&format!("{link}/")) {
                return format!("{target}/{rest}");
            }
        }
        cleaned
    }
}

impl SourceFs for Linked {
    fn read_file(&self, path: &str) -> Option<String> {
        self.files.read_file(&self.follow(path))
    }

    fn read_dir(&self, path: &str) -> Option<Vec<DirEntry>> {
        self.files.read_dir(&self.follow(path))
    }

    fn join(&self, parts: &[&str]) -> String {
        self.files.join(parts)
    }

    fn dir(&self, path: &str) -> String {
        self.files.dir(path)
    }

    fn canon(&self, path: &str) -> String {
        self.files.canon(path)
    }

    fn real_path(&self, path: &str) -> Option<String> {
        Some(self.follow(path))
    }

    fn native_paths(&self) -> bool {
        false
    }

    fn separator(&self) -> char {
        '/'
    }
}

impl IntoSharedFs for Linked {
    fn into_shared(self) -> SharedFs {
        Arc::new(Box::new(self))
    }
}

fn linked(entries: &[(&str, &str)], links: &[(&str, &str)]) -> Linked {
    let mut files = MapFs::new();
    for (path, content) in entries {
        files.insert(path, content);
    }
    Linked {
        files,
        links: links
            .iter()
            .map(|(link, target)| (link.to_string(), target.to_string()))
            .collect(),
    }
}

#[test]
fn a_link_under_the_root_cannot_lead_the_file_resolver_out() {
    let fs = share_fs(linked(
        &[
            ("srv/app/main.jsonic", "{ok:1}"),
            ("elsewhere/secret.jsonic", "{leak:1}"),
        ],
        &[("srv/app/out", "elsewhere")],
    ));
    let exts = default_implicit_ext();
    let here = ResolverInput {
        path: "srv/app",
        implicit_ext: &exts,
        source_path: None,
        fs: &fs,
        cwd: None,
    };
    // The link is readable, which is exactly why it must be refused.
    assert_eq!(fs.read_file("srv/app/out/secret.jsonic"), Some("{leak:1}".to_string()));

    let resolver = FileResolver::new().with_root("srv/app");
    assert!(resolver.resolve(Some("main.jsonic"), &here).found);
    assert!(!resolver.resolve(Some("out/secret.jsonic"), &here).found);
    assert!(!resolver.resolve(Some("out/secret"), &here).found);

    // Without a root the link is followed like any other path.
    let open = FileResolver::new().resolve(Some("out/secret.jsonic"), &here);
    assert_eq!(open.src.as_deref(), Some("{leak:1}"));

    // A root spelled another way is the same root once resolved.
    let respelled = FileResolver::new().with_root("srv/x/../app/");
    assert!(respelled.resolve(Some("main.jsonic"), &here).found);
    assert!(!respelled.resolve(Some("out/secret.jsonic"), &here).found);
}

#[test]
fn a_link_under_the_root_cannot_lead_the_package_resolver_out() {
    let fs = share_fs(linked(
        &[
            ("srv/node_modules/inside/index.jsonic", "{in:1}"),
            ("elsewhere/outside/index.jsonic", "{out:1}"),
        ],
        &[("srv/node_modules/outside", "elsewhere/outside")],
    ));
    let exts = default_implicit_ext();
    let here = ResolverInput {
        path: "",
        implicit_ext: &exts,
        source_path: None,
        fs: &fs,
        cwd: None,
    };
    let resolver = PkgResolver::new()
        .with_paths(vec!["srv".to_string()])
        .with_root("srv");
    let inside = resolver.resolve(Some("inside"), &here);
    assert_eq!(inside.src.as_deref(), Some("{in:1}"));
    assert!(!resolver.resolve(Some("outside"), &here).found);
}
