//! The package resolver: references resolved inside `node_modules`
//! folders.

use vstd::prelude::*;

use crate::file_resolver::{
    admitted, admitted_by_root, file_load, first_file_loaded, fs_base, lemma_first_file_loaded, node_modules,
};
use crate::json::{json_str_member, str_member};
use crate::lexical::dot;
use crate::paths::{
    build_potentials, ext_kind, is_abs_ref, resolve_path_spec, spec_ext_kind, spec_path_spec, spec_potentials,
};
use crate::resolution::{located, missing, raw_base, Resolution, ResolutionView, ResolverInput};
use crate::shared::{model_of, IntoSharedFs, SharedFs};
use crate::text::{push_string, starts_with, str_eq};
use crate::vfs::{fs_model, FsModel, SourceFs};

verus! {

/// How many folders an ancestor walk visits at most.
pub const MAX_ANCESTORS: usize = 65;

/// `package.json` as text.
pub open spec fn package_json() -> Seq<char> {
    seq!['p', 'a', 'c', 'k', 'a', 'g', 'e', '.', 'j', 's', 'o', 'n']
}

/// `main` as text.
pub open spec fn main_key() -> Seq<char> {
    seq!['m', 'a', 'i', 'n']
}

/// Whether `s` begins with `prefix`.
pub open spec fn has_prefix(s: Seq<char>, prefix: Seq<char>) -> bool {
    prefix.len() <= s.len() && s.subrange(0, prefix.len() as int) == prefix
}

/// Whether a reference is explicitly relative: `.`, `..`, or starting
/// with `./` or `../` in either separator.
pub open spec fn spec_is_relative_ref(reference: Seq<char>) -> bool {
    ||| reference == dot()
    ||| reference == seq!['.', '.']
    ||| has_prefix(reference, seq!['.', '/'])
    ||| has_prefix(reference, seq!['.', '.', '/'])
    ||| has_prefix(reference, seq!['.', '\\'])
    ||| has_prefix(reference, seq!['.', '.', '\\'])
}

/// `current` followed by its parents, at most `n` folders, stopping at a
/// folder that is its own parent.
pub open spec fn ancestors_from(m: FsModel, current: Seq<char>, n: nat) -> Seq<Seq<char>>
    decreases n,
{
    if n == 0 {
        Seq::empty()
    } else {
        let parent = (m.dir)(current);
        if parent == current || n == 1 {
            seq![current]
        } else {
            seq![current] + ancestors_from(m, parent, (n - 1) as nat)
        }
    }
}

/// `dir` followed by each of its parents; nothing for an empty path.
pub open spec fn spec_ancestors(m: FsModel, dir: Seq<char>) -> Seq<Seq<char>> {
    if dir.len() == 0 {
        Seq::empty()
    } else {
        ancestors_from(m, dir, MAX_ANCESTORS as nat)
    }
}

/// The groups of `groups`, one after another.
pub open spec fn concat_groups(groups: Seq<Seq<Seq<char>>>) -> Seq<Seq<char>>
    decreases groups.len(),
{
    if groups.len() == 0 {
        Seq::empty()
    } else {
        concat_groups(groups.drop_last()) + groups.last()
    }
}

/// `s` with every element after its first occurrence left out.
pub open spec fn first_occurrences(s: Seq<Seq<char>>) -> Seq<Seq<char>>
    decreases s.len(),
{
    if s.len() == 0 {
        Seq::empty()
    } else {
        let kept = first_occurrences(s.drop_last());
        if kept.contains(s.last()) {
            kept
        } else {
            kept.push(s.last())
        }
    }
}

/// The folders a package search starts from: the configured ones, else
/// the working directory on a native filesystem, else `.`.
pub open spec fn pkg_roots(paths: Seq<Seq<char>>, native: bool, cwd: Option<Seq<char>>) -> Seq<
    Seq<char>,
> {
    if paths.len() > 0 {
        paths
    } else if native {
        match cwd {
            Some(c) => seq![c],
            None => Seq::empty(),
        }
    } else {
        seq![dot()]
    }
}

/// The `node_modules` folders under each ancestor of each root.
pub open spec fn root_groups(m: FsModel, roots: Seq<Seq<char>>) -> Seq<Seq<Seq<char>>> {
    roots.map_values(
        |root: Seq<char>|
            spec_ancestors(m, (m.canon)(root)).map_values(
                |folder: Seq<char>| (m.join)(seq![folder, node_modules()]),
            ),
    )
}

/// Every `node_modules` folder a package search visits, in order, each
/// once.
pub open spec fn node_modules_dirs(m: FsModel, roots: Seq<Seq<char>>) -> Seq<Seq<char>> {
    first_occurrences(concat_groups(root_groups(m, roots)))
}

/// A search of one candidate list: the candidates tried up to the first
/// that loads, and that one with its source.
pub open spec fn search_list(
    m: FsModel,
    root: Option<Seq<char>>,
    candidates: Seq<Seq<char>>,
) -> (Seq<Seq<char>>, Option<(Seq<char>, Seq<char>)>) {
    let i = first_file_loaded(candidates, m, Map::empty(), root);
    if i >= 0 {
        (
            candidates.take(i + 1),
            Some((candidates[i], file_load(m, Map::empty(), root, candidates[i])->0)),
        )
    } else {
        (candidates, None)
    }
}

/// The search for a package's `main`, `main` being what its manifest
/// names under that key: a non-empty name is joined to the package folder
/// `target` and tried with its implicit extensions and index files; an
/// empty or absent one searches nothing and finds nothing.
pub open spec fn main_step(
    m: FsModel,
    root: Option<Seq<char>>,
    target: Seq<char>,
    main: Option<Seq<char>>,
    exts: Seq<Seq<char>>,
) -> (Seq<Seq<char>>, Option<(Seq<char>, Seq<char>)>) {
    match main {
        Some(name) => if name.len() > 0 {
            search_list(m, root, spec_potentials((m.join)(seq![target, name]), exts))
        } else {
            (Seq::empty(), None)
        },
        None => (Seq::empty(), None),
    }
}

/// The search of one `node_modules` folder: the reference with its
/// implicit extensions and index files; failing that, when the package's
/// `package.json` loads, the `main` it names, as [`main_step`] searches
/// it.
pub open spec fn pkg_step(
    m: FsModel,
    root: Option<Seq<char>>,
    folder: Seq<char>,
    reference: Seq<char>,
    exts: Seq<Seq<char>>,
) -> (Seq<Seq<char>>, Option<(Seq<char>, Seq<char>)>) {
    let target = (m.join)(seq![folder, reference]);
    let first = search_list(m, root, spec_potentials(target, exts));
    if first.1 is Some {
        first
    } else {
        let manifest = (m.join)(seq![target, package_json()]);
        let searched = first.0.push(manifest);
        match file_load(m, Map::empty(), root, manifest) {
            None => (searched, None),
            Some(text) => {
                let second = main_step(m, root, target, json_str_member(text, main_key()), exts);
                (searched + second.0, second.1)
            },
        }
    }
}

/// The package search through `folders` in order: everything searched,
/// and the first source found.
pub open spec fn pkg_walk(
    m: FsModel,
    root: Option<Seq<char>>,
    folders: Seq<Seq<char>>,
    reference: Seq<char>,
    exts: Seq<Seq<char>>,
) -> (Seq<Seq<char>>, Option<(Seq<char>, Seq<char>)>)
    decreases folders.len(),
{
    if folders.len() == 0 {
        (Seq::empty(), None)
    } else {
        let before = pkg_walk(m, root, folders.drop_last(), reference, exts);
        if before.1 is Some {
            before
        } else {
            let step = pkg_step(m, root, folders.last(), reference, exts);
            (before.0 + step.0, step.1)
        }
    }
}

/// What the package resolver reports.
///
/// An absent or empty reference finds nothing. An explicitly relative
/// one is resolved against the containing source's directory, as the
/// file resolver would. Any other is searched for in every
/// `node_modules` folder above every root.
pub open spec fn spec_pkg_resolve(
    m: FsModel,
    root: Option<Seq<char>>,
    paths: Seq<Seq<char>>,
    reference: Option<Seq<char>>,
    raw: Seq<char>,
    exts: Seq<Seq<char>>,
    cwd: Option<Seq<char>>,
) -> ResolutionView {
    let spec = spec_path_spec(reference, fs_base(m, raw));
    match spec.path {
        None => missing(spec, Seq::empty()),
        Some(path) => if path.len() == 0 {
            missing(spec, Seq::empty())
        } else if spec_is_relative_ref(path) {
            match spec.full {
                None => missing(spec, Seq::empty()),
                Some(full0) => {
                    let full = (m.canon)(full0);
                    let candidates = if spec_ext_kind(full).len() == 0 {
                        spec_potentials(full, exts)
                    } else {
                        seq![full]
                    };
                    let found = search_list(m, root, candidates);
                    match found.1 {
                        Some(hit) => located(spec, hit.0, hit.1, candidates),
                        None => missing(spec, candidates),
                    }
                },
            }
        } else {
            let folders = node_modules_dirs(m, pkg_roots(paths, m.native, cwd));
            let walked = pkg_walk(m, root, folders, path, exts);
            match walked.1 {
                Some(hit) => located(spec, hit.0, hit.1, walked.0),
                None => missing(spec, walked.0),
            }
        },
    }
}

proof fn lemma_search_list_loads(m: FsModel, root: Option<Seq<char>>, candidates: Seq<Seq<char>>)
    ensures
        search_list(m, root, candidates).1 matches Some(hit) ==> file_load(
            m,
            Map::empty(),
            root,
            hit.0,
        ) == Some(hit.1) && search_list(m, root, candidates).0.contains(hit.0),
{
    lemma_first_file_loaded(candidates, m, Map::empty(), root);
    let i = first_file_loaded(candidates, m, Map::empty(), root);
    if i >= 0 {
        assert(candidates.take(i + 1)[i] == candidates[i]);
    }
}

proof fn lemma_pkg_step_loads(
    m: FsModel,
    root: Option<Seq<char>>,
    folder: Seq<char>,
    reference: Seq<char>,
    exts: Seq<Seq<char>>,
)
    ensures
        pkg_step(m, root, folder, reference, exts).1 matches Some(hit) ==> file_load(
            m,
            Map::empty(),
            root,
            hit.0,
        ) == Some(hit.1) && pkg_step(m, root, folder, reference, exts).0.contains(hit.0),
{
    let target = (m.join)(seq![folder, reference]);
    lemma_search_list_loads(m, root, spec_potentials(target, exts));
    let first = search_list(m, root, spec_potentials(target, exts));
    let manifest = (m.join)(seq![target, package_json()]);
    if first.1 is None {
        if let Some(text) = file_load(m, Map::empty(), root, manifest) {
            if let Some(name) = json_str_member(text, main_key()) {
                let cands = spec_potentials((m.join)(seq![target, name]), exts);
                lemma_search_list_loads(m, root, cands);
                let second = main_step(m, root, target, Some(name), exts);
                if let Some(hit) = second.1 {
                    let searched = first.0.push(manifest);
                    let k = choose|k: int| 0 <= k < second.0.len() && second.0[k] == hit.0;
                    assert((searched + second.0)[searched.len() + k] == hit.0);
                }
            }
        }
    }
}

proof fn lemma_pkg_walk_loads(
    m: FsModel,
    root: Option<Seq<char>>,
    folders: Seq<Seq<char>>,
    reference: Seq<char>,
    exts: Seq<Seq<char>>,
)
    ensures
        pkg_walk(m, root, folders, reference, exts).1 matches Some(hit) ==> file_load(
            m,
            Map::empty(),
            root,
            hit.0,
        ) == Some(hit.1) && pkg_walk(m, root, folders, reference, exts).0.contains(hit.0),
    decreases folders.len(),
{
    if folders.len() > 0 {
        lemma_pkg_walk_loads(m, root, folders.drop_last(), reference, exts);
        lemma_pkg_step_loads(m, root, folders.last(), reference, exts);
        let before = pkg_walk(m, root, folders.drop_last(), reference, exts);
        let step = pkg_step(m, root, folders.last(), reference, exts);
        if before.1 is None {
            if let Some(hit) = step.1 {
                let k = choose|k: int| 0 <= k < step.0.len() && step.0[k] == hit.0;
                assert((before.0 + step.0)[before.0.len() + k] == hit.0);
            }
        }
    }
}

/// The package resolver finds only what its root admits, and what it
/// finds is what the filesystem holds there, at a path it lists among
/// those searched, under the kind of that path. An absent or empty
/// reference finds nothing and searches nothing.
pub proof fn law_pkg_resolver_finds_only_what_it_admits(
    m: FsModel,
    root: Option<Seq<char>>,
    paths: Seq<Seq<char>>,
    reference: Option<Seq<char>>,
    raw: Seq<char>,
    exts: Seq<Seq<char>>,
    cwd: Option<Seq<char>>,
)
    ensures
        ({
            let r = spec_pkg_resolve(m, root, paths, reference, raw, exts, cwd);
            &&& r.found ==> {
                &&& r.spec.full is Some
                &&& admitted(m, root, r.spec.full->0)
                &&& r.src == (m.read_file)(r.spec.full->0)
                &&& r.search.contains(r.spec.full->0)
                &&& r.spec.kind == spec_ext_kind(r.spec.full->0)
            }
            &&& (reference is None || reference == Some(Seq::<char>::empty())) ==> {
                &&& !r.found
                &&& r.search.len() == 0
            }
        }),
{
    let spec = spec_path_spec(reference, fs_base(m, raw));
    if let Some(path) = spec.path {
        if path.len() > 0 {
            if spec_is_relative_ref(path) {
                if let Some(full0) = spec.full {
                    let full = (m.canon)(full0);
                    let candidates = if spec_ext_kind(full).len() == 0 {
                        spec_potentials(full, exts)
                    } else {
                        seq![full]
                    };
                    lemma_search_list_loads(m, root, candidates);
                    lemma_first_file_loaded(candidates, m, Map::empty(), root);
                }
            } else {
                let folders = node_modules_dirs(m, pkg_roots(paths, m.native, cwd));
                lemma_pkg_walk_loads(m, root, folders, path, exts);
            }
        }
    }
}

/// Whether `p` is a prefix of `s`.
pub open spec fn is_prefix(p: Seq<Seq<char>>, s: Seq<Seq<char>>) -> bool {
    p.len() <= s.len() && s.take(p.len() as int) == p
}

proof fn lemma_prefix_trans(a: Seq<Seq<char>>, b: Seq<Seq<char>>, c: Seq<Seq<char>>)
    requires
        is_prefix(a, b),
        is_prefix(b, c),
    ensures
        is_prefix(a, c),
{
    assert(c.take(a.len() as int) =~= c.take(b.len() as int).take(a.len() as int));
}

proof fn lemma_first_occurrences_prefix(p: Seq<Seq<char>>, s: Seq<Seq<char>>)
    requires
        is_prefix(p, s),
    ensures
        is_prefix(first_occurrences(p), first_occurrences(s)),
    decreases s.len(),
{
    if p.len() == s.len() {
        assert(p =~= s);
        assert(first_occurrences(s).take(first_occurrences(s).len() as int) =~= first_occurrences(
            s,
        ));
    } else {
        let shorter = s.drop_last();
        assert(shorter.take(p.len() as int) =~= s.take(p.len() as int));
        lemma_first_occurrences_prefix(p, shorter);
        let fs = first_occurrences(s);
        let fd = first_occurrences(shorter);
        if fd.contains(s.last()) {
            assert(fs == fd);
        } else {
            assert(fs == fd.push(s.last()));
            assert(fs.take(fd.len() as int) =~= fd);
            lemma_prefix_trans(first_occurrences(p), fd, fs);
        }
    }
}

proof fn lemma_walk_prefix(
    m: FsModel,
    root: Option<Seq<char>>,
    p: Seq<Seq<char>>,
    s: Seq<Seq<char>>,
    reference: Seq<char>,
    exts: Seq<Seq<char>>,
)
    requires
        is_prefix(p, s),
        pkg_walk(m, root, p, reference, exts).1 is Some,
    ensures
        pkg_walk(m, root, s, reference, exts) == pkg_walk(m, root, p, reference, exts),
    decreases s.len(),
{
    if p.len() == s.len() {
        assert(p =~= s);
    } else {
        let shorter = s.drop_last();
        assert(shorter.take(p.len() as int) =~= s.take(p.len() as int));
        lemma_walk_prefix(m, root, p, shorter, reference, exts);
    }
}

proof fn lemma_concat_groups_prefix(g: Seq<Seq<Seq<char>>>, k: int)
    requires
        0 <= k <= g.len(),
    ensures
        is_prefix(concat_groups(g.take(k)), concat_groups(g)),
    decreases g.len() - k,
{
    if k == g.len() {
        assert(g.take(k) =~= g);
        assert(concat_groups(g).take(concat_groups(g).len() as int) =~= concat_groups(g));
    } else {
        lemma_concat_groups_prefix(g, k + 1);
        assert(g.take(k + 1).drop_last() =~= g.take(k));
        let short = concat_groups(g.take(k));
        let long = concat_groups(g.take(k + 1));
        assert(long == short + g[k]);
        assert(long.take(short.len() as int) =~= short);
        lemma_prefix_trans(short, long, concat_groups(g));
    }
}

/// Whether `v` holds `s`.
fn contains_text(v: &Vec<String>, s: &str) -> (r: bool)
    ensures
        r == v.deep_view().contains(s@),
{
    let mut i: usize = 0;
    while i < v.len()
        invariant
            i <= v.len(),
            forall|j: int| 0 <= j < i ==> v.deep_view()[j] != s@,
        decreases v.len() - i,
    {
        if str_eq(v[i].as_str(), s) {
            assert(v.deep_view()[i as int] == s@);
            return true;
        }
        i = i + 1;
    }
    false
}

/// Is `reference` an explicit relative reference?
///
/// Such a reference is resolved against the containing source's
/// directory rather than treated as a package name.
pub fn is_relative_ref(reference: &str) -> (r: bool)
    ensures
        r == spec_is_relative_ref(reference@),
{
    proof {
        reveal_strlit(".");
        reveal_strlit("..");
        reveal_strlit("./");
        reveal_strlit("../");
        reveal_strlit(".\\");
        reveal_strlit("..\\");
        assert("."@ =~= dot());
        assert(".."@ =~= seq!['.', '.']);
        assert("./"@ =~= seq!['.', '/']);
        assert("../"@ =~= seq!['.', '.', '/']);
        assert(".\\"@ =~= seq!['.', '\\']);
        assert("..\\"@ =~= seq!['.', '.', '\\']);
    }
    str_eq(reference, ".") || str_eq(reference, "..") || starts_with(reference, "./")
        || starts_with(reference, "../") || starts_with(reference, ".\\") || starts_with(
        reference,
        "..\\",
    )
}

/// `dir` followed by each of its parents.
fn ancestors(filesystem: &SharedFs, dir: &str) -> (dirs: Vec<String>)
    ensures
        dirs.deep_view() == spec_ancestors(model_of(*filesystem), dir@),
{
    let ghost m = model_of(*filesystem);
    let mut dirs: Vec<String> = Vec::new();
    if dir.is_empty() {
        assert(dirs.deep_view() =~= Seq::<Seq<char>>::empty());
        return dirs;
    }
    let mut current = String::from_str(dir);
    let mut left: usize = MAX_ANCESTORS;
    loop
        invariant
            m == model_of(*filesystem),
            1 <= left <= MAX_ANCESTORS,
            dir@.len() > 0,
            dirs.len() + left == MAX_ANCESTORS,
            dirs.deep_view() + ancestors_from(m, current@, left as nat) == ancestors_from(
                m,
                dir@,
                MAX_ANCESTORS as nat,
            ),
        decreases left,
    {
        let ghost before = dirs.deep_view();
        let ghost cur = current@;
        push_string(&mut dirs, current.clone());
        let parent = filesystem.dir(current.as_str());
        if str_eq(parent.as_str(), current.as_str()) || left == 1 {
            assert(ancestors_from(m, cur, left as nat) == seq![cur]);
            assert(dirs.deep_view() =~= before + seq![cur]);
            assert(dirs.deep_view() == ancestors_from(m, dir@, MAX_ANCESTORS as nat));
            assert(dir@.len() > 0);
            assert(dirs.deep_view() =~= dirs.deep_view() + Seq::<Seq<char>>::empty());
            return dirs;
        }
        assert(before + ancestors_from(m, cur, left as nat) =~= dirs.deep_view() + ancestors_from(
            m,
            parent@,
            (left - 1) as nat,
        ));
        current = parent;
        left = left - 1;
    }
}

/// Resolve references inside `node_modules` folders.
///
/// It walks `node_modules` directories, honours a package's
/// `package.json` `main` for a bare reference, and tries implicit
/// extensions and index files.
pub struct PkgResolver {
    paths: Vec<String>,
    fs: Option<SharedFs>,
    root: Option<String>,
}

impl PkgResolver {
    /// The folders the search starts from, when configured.
    pub closed spec fn start_paths(&self) -> Seq<Seq<char>> {
        self.paths.deep_view()
    }

    /// The root every candidate is confined to, if there is one.
    pub closed spec fn root(&self) -> Option<Seq<char>> {
        self.root.deep_view()
    }

    /// The filesystem of the resolver's own, if it has one.
    pub closed spec fn own_fs(&self) -> Option<SharedFs> {
        self.fs
    }

    /// The filesystem this resolver reads for `input`: its own, else the
    /// one the options name.
    pub open spec fn reads(&self, input: ResolverInput) -> SharedFs {
        match self.own_fs() {
            Some(fs) => fs,
            None => *input.fs,
        }
    }

    /// A resolver that walks up from the working directory.
    pub fn new() -> (r: Self)
        ensures
            r.start_paths().len() == 0,
            r.own_fs() is None,
            r.root() is None,
    {
        let r = PkgResolver { paths: Vec::new(), fs: None, root: None };
        assert(r.start_paths() =~= Seq::<Seq<char>>::empty());
        r
    }

    /// Search these directories, and each of their parents, instead.
    pub fn with_paths(self, paths: Vec<String>) -> (r: Self)
        ensures
            r.start_paths() == paths.deep_view(),
            r.own_fs() == self.own_fs(),
            r.root() == self.root(),
    {
        PkgResolver { paths, ..self }
    }

    /// Read from an already shared filesystem handle instead of the one
    /// the plugin options name.
    pub fn with_shared_fs(self, filesystem: SharedFs) -> (r: Self)
        ensures
            r.start_paths() == self.start_paths(),
            r.own_fs() == Some(filesystem),
            r.root() == self.root(),
    {
        PkgResolver { fs: Some(filesystem), ..self }
    }

    /// Read from `filesystem` instead of the one the plugin options name.
    pub fn with_fs(self, filesystem: impl IntoSharedFs) -> (r: Self)
        ensures
            r.start_paths() == self.start_paths(),
            r.own_fs() matches Some(fs) && model_of(fs) == fs_model(&filesystem),
            r.root() == self.root(),
    {
        self.with_shared_fs(crate::shared::share_fs(filesystem))
    }

    /// Confine every candidate path to `root`, as
    /// [`crate::file_resolver::FileResolver::with_root`] does.
    pub fn with_root(self, root: &str) -> (r: Self)
        ensures
            r.start_paths() == self.start_paths(),
            r.own_fs() == self.own_fs(),
            r.root() == Some(root@),
    {
        PkgResolver { root: Some(String::from_str(root)), ..self }
    }

    /// Whether the root, if any, admits `candidate` on `filesystem`.
    fn allowed(&self, filesystem: &SharedFs, candidate: &str) -> (r: bool)
        ensures
            r == admitted(model_of(*filesystem), self.root(), candidate@),
    {
        match &self.root {
            Some(root) => admitted_by_root(filesystem, root.as_str(), candidate),
            None => true,
        }
    }

    /// Read `path`, unless the root refuses it.
    fn load(&self, filesystem: &SharedFs, path: &str) -> (r: Option<String>)
        ensures
            r.deep_view() == file_load(model_of(*filesystem), Map::empty(), self.root(), path@),
    {
        if !self.allowed(filesystem, path) {
            return None;
        }
        filesystem.read_file(path)
    }

    /// Try `candidates` in order, recording each in `search`, and return
    /// the first that loads.
    fn first_of(
        &self,
        filesystem: &SharedFs,
        candidates: &Vec<String>,
        search: &mut Vec<String>,
    ) -> (r: Option<(String, String)>)
        ensures
            final(search).deep_view() == old(search).deep_view() + search_list(
                model_of(*filesystem),
                self.root(),
                candidates.deep_view(),
            ).0,
            search_list(model_of(*filesystem), self.root(), candidates.deep_view()).1 == match r {
                Some(pair) => Some((pair.0@, pair.1@)),
                None => None,
            },
    {
        let ghost m = model_of(*filesystem);
        let ghost root = self.root();
        let ghost cands = candidates.deep_view();
        let ghost start = old(search).deep_view();
        let mut i: usize = 0;
        let mut hit: Option<(String, String)> = None;
        proof {
            if cands.len() == 0 {
                lemma_first_file_loaded(cands, m, Map::empty(), root);
                assert(cands.take(0) =~= cands);
            }
        }
        while i < candidates.len()
            invariant_except_break
                i <= candidates.len(),
                cands == candidates.deep_view(),
                m == model_of(*filesystem),
                root == self.root(),
                search.deep_view() == start + cands.take(i as int),
                forall|j: int| 0 <= j < i ==> file_load(m, Map::empty(), root, #[trigger] cands[j]) is None,
                hit is None,
                i == cands.len() ==> search_list(m, root, cands) == (cands, Option::<(Seq<char>, Seq<char>)>::None),
                i == cands.len() ==> cands.take(i as int) == cands,
            ensures
                search.deep_view() == start + search_list(m, root, cands).0,
                search_list(m, root, cands).1 == match hit {
                    Some(pair) => Some((pair.0@, pair.1@)),
                    None => None,
                },
            decreases candidates.len() - i,
        {
            push_string(search, candidates[i].clone());
            assert(cands.take(i + 1) =~= cands.take(i as int).push(cands[i as int]));
            if let Some(src) = self.load(filesystem, candidates[i].as_str()) {
                proof {
                    lemma_first_file_loaded(cands, m, Map::empty(), root);
                    let f = first_file_loaded(cands, m, Map::empty(), root);
                    assert(cands[i as int] == candidates[i as int]@);
                    if f < 0 || f > i {
                        assert(file_load(m, Map::empty(), root, cands[i as int]) is None);
                    }
                    if 0 <= f < i {
                        assert(file_load(m, Map::empty(), root, cands[f]) is None);
                    }
                    assert(f == i);
                }
                hit = Some((candidates[i].clone(), src));
                break;
            }
            i = i + 1;
            proof {
                if i == candidates.len() {
                    lemma_first_file_loaded(cands, m, Map::empty(), root);
                    assert(cands.take(i as int) =~= cands);
                }
            }
        }
        hit
    }

    /// Search one `node_modules` folder: the reference itself, with
    /// implicit extensions and index files, then the package's
    /// `package.json` `main`.
    fn resolve_in_pkg_dir(
        &self,
        filesystem: &SharedFs,
        node_modules_dir: &str,
        reference: &str,
        implicit_ext: &[String],
        search: &mut Vec<String>,
    ) -> (r: Option<(String, String)>)
        ensures
            final(search).deep_view() == old(search).deep_view() + pkg_step(
                model_of(*filesystem),
                self.root(),
                node_modules_dir@,
                reference@,
                implicit_ext.deep_view(),
            ).0,
            pkg_step(
                model_of(*filesystem),
                self.root(),
                node_modules_dir@,
                reference@,
                implicit_ext.deep_view(),
            ).1 == match r {
                Some(pair) => Some((pair.0@, pair.1@)),
                None => None,
            },
    {
        let parts: [&str; 2] = [node_modules_dir, reference];
        assert(parts.deep_view() =~= seq![node_modules_dir@, reference@]);
        let target = filesystem.join(&parts);
        let first = self.first_of(
            filesystem,
            &build_potentials(target.as_str(), implicit_ext),
            search,
        );
        if first.is_some() {
            return first;
        }
        proof {
            reveal_strlit("package.json");
            reveal_strlit("main");
            assert("package.json"@ =~= package_json());
            assert("main"@ =~= main_key());
        }
        let manifest_parts: [&str; 2] = [target.as_str(), "package.json"];
        assert(manifest_parts.deep_view() =~= seq![target@, package_json()]);
        let manifest = filesystem.join(&manifest_parts);
        push_string(search, manifest.clone());
        let text = match self.load(filesystem, manifest.as_str()) {
            Some(text) => text,
            None => {
                return None;
            },
        };
        let main = str_member(text.as_str(), "main");
        let ghost before_main = search.deep_view();
        let found = self.search_main(filesystem, target.as_str(), main, implicit_ext, search);
        proof {
            let m = model_of(*filesystem);
            let first_view = search_list(
                m,
                self.root(),
                spec_potentials(target@, implicit_ext.deep_view()),
            );
            assert(before_main == old(search).deep_view() + first_view.0.push(manifest@));
            assert(search.deep_view() =~= old(search).deep_view() + (first_view.0.push(manifest@)
                + main_step(m, self.root(), target@, main.deep_view(), implicit_ext.deep_view()).0));
        }
        found
    }

    /// Search for a package's `main`: `main` is what the manifest of the
    /// package folder `target` names under that key. Each candidate tried
    /// is recorded in `search`, and the first that loads is returned.
    pub fn search_main(
        &self,
        filesystem: &SharedFs,
        target: &str,
        main: Option<String>,
        implicit_ext: &[String],
        search: &mut Vec<String>,
    ) -> (r: Option<(String, String)>)
        ensures
            final(search).deep_view() == old(search).deep_view() + main_step(
                model_of(*filesystem),
                self.root(),
                target@,
                main.deep_view(),
                implicit_ext.deep_view(),
            ).0,
            main_step(
                model_of(*filesystem),
                self.root(),
                target@,
                main.deep_view(),
                implicit_ext.deep_view(),
            ).1 == match r {
                Some(pair) => Some((pair.0@, pair.1@)),
                None => None,
            },
    {
        let main = match main {
            Some(main) => main,
            None => {
                assert(search.deep_view() =~= old(search).deep_view() + Seq::<Seq<char>>::empty());
                return None;
            },
        };
        if main.as_str().is_empty() {
            assert(search.deep_view() =~= old(search).deep_view() + Seq::<Seq<char>>::empty());
            return None;
        }
        let main_parts: [&str; 2] = [target, main.as_str()];
        assert(main_parts.deep_view() =~= seq![target@, main@]);
        let main_path = filesystem.join(&main_parts);
        self.first_of(filesystem, &build_potentials(main_path.as_str(), implicit_ext), search)
    }

    /// Resolve `reference` inside `node_modules` folders.
    #[verifier::rlimit(60)]
    #[verifier::spinoff_prover]
    pub fn resolve(&self, reference: Option<&str>, input: &ResolverInput) -> (r: Resolution)
        ensures
                r@ == spec_pkg_resolve(
                    model_of(self.reads(*input)),
                    self.root(),
                    self.start_paths(),
                    reference.deep_view(),
                    raw_base(*input),
                    input.implicit_ext.deep_view(),
                    input.cwd.deep_view(),
                ),
    {
        let filesystem: &SharedFs = match &self.fs {
            Some(fs) => fs,
            None => input.fs,
        };
        assert(*filesystem == self.reads(*input));
        let ghost m = model_of(*filesystem);
        let ghost exts = input.implicit_ext.deep_view();
        let ghost root = self.root();
        let raw: &str = match &input.source_path {
            Some(path) => path.as_str(),
            None => input.path,
        };
        let base = if raw.is_empty() {
            String::new()
        } else if filesystem.read_file(raw).is_some() {
            filesystem.dir(raw)
        } else {
            String::from_str(raw)
        };
        assert(base@ == fs_base(m, raw_base(*input)));
        let spec = resolve_path_spec(reference, base.as_str());
        let ghost target = spec_pkg_resolve(
                m,
                root,
                self.start_paths(),
                reference.deep_view(),
                raw_base(*input),
                exts,
                input.cwd.deep_view(),
            );
        let path = match &spec.path {
            None => {
                let r = Resolution::not_found(spec);
                assert(r@ == target);
                return r;
            },
            Some(path) => path.clone(),
        };
        if path.as_str().is_empty() {
            let r = Resolution::not_found(spec);
            assert(r@ == target);
            return r;
        }
        if is_relative_ref(path.as_str()) {
            let full0 = match &spec.full {
                None => {
                    let r = Resolution::not_found(spec);
                    assert(r@ == target);
                    return r;
                },
                Some(full) => full.clone(),
            };
            let full = filesystem.canon(full0.as_str());
            let candidates: Vec<String> = if ext_kind(Some(full.as_str())).as_str().is_empty() {
                build_potentials(full.as_str(), input.implicit_ext)
            } else {
                let mut one: Vec<String> = Vec::new();
                push_string(&mut one, full.clone());
                assert(one.deep_view() =~= seq![full@]);
                one
            };
            let mut scratch: Vec<String> = Vec::new();
            let hit = self.first_of(filesystem, &candidates, &mut scratch);
            let r = match hit {
                Some(pair) => Resolution::found(spec, pair.0, pair.1).with_search(candidates),
                None => Resolution::not_found(spec).with_search(candidates),
            };
            assert(r@ == target);
            return r;
        }
        proof {
            reveal_strlit(".");
            reveal_strlit("node_modules");
            assert("."@ =~= dot());
            assert("node_modules"@ =~= node_modules());
        }
        let roots: Vec<String> = if self.paths.len() > 0 {
            self.paths.clone()
        } else if filesystem.native_paths() {
            let mut v: Vec<String> = Vec::new();
            match &input.cwd {
                Some(cwd) => {
                    push_string(&mut v, cwd.clone());
                },
                None => {},
            }
            v
        } else {
            let mut v: Vec<String> = Vec::new();
            push_string(&mut v, String::from_str("."));
            v
        };
        assert(roots.deep_view() =~= pkg_roots(self.start_paths(), m.native, input.cwd.deep_view()));
        let ghost groups = root_groups(m, roots.deep_view());
        let ghost all = node_modules_dirs(m, roots.deep_view());
        let ghost mut flat: Seq<Seq<char>> = Seq::empty();
        let mut seen: Vec<String> = Vec::new();
        let mut search: Vec<String> = Vec::new();
        assert(groups.take(0) =~= Seq::<Seq<Seq<char>>>::empty());
        assert(seen.deep_view() =~= Seq::<Seq<char>>::empty());
        assert(search.deep_view() =~= Seq::<Seq<char>>::empty());
        let mut a: usize = 0;
        while a < roots.len()
            invariant
                a <= roots.len(),
                m == model_of(*filesystem),
                *filesystem == self.reads(*input),
                root == self.root(),
                exts == input.implicit_ext.deep_view(),
                groups == root_groups(m, roots.deep_view()),
                all == node_modules_dirs(m, roots.deep_view()),
                "node_modules"@ == node_modules(),
                flat == concat_groups(groups.take(a as int)),
                seen.deep_view() == first_occurrences(flat),
                pkg_walk(m, root, seen.deep_view(), path@, exts) == (
                    search.deep_view(),
                    Option::<(Seq<char>, Seq<char>)>::None,
                ),
                spec@ == spec_path_spec(reference.deep_view(), fs_base(m, raw_base(*input))),
                spec@.path == Some(path@),
                path@.len() > 0,
                !spec_is_relative_ref(path@),
                roots.deep_view() == pkg_roots(self.start_paths(), m.native, input.cwd.deep_view()),
                target == spec_pkg_resolve(
                    m,
                    root,
                    self.start_paths(),
                    reference.deep_view(),
                    raw_base(*input),
                    exts,
                    input.cwd.deep_view(),
                ),
            decreases roots.len() - a,
        {
            let canon_root = filesystem.canon(roots[a].as_str());
            let folders = ancestors(filesystem, canon_root.as_str());
            assert(folders.deep_view() == spec_ancestors(m, (m.canon)(roots.deep_view()[a as int])));
            let ghost group = groups[a as int];
            assert(group.len() == folders.len());
            let mut b: usize = 0;
            assert(group.take(0) =~= Seq::<Seq<char>>::empty());
            assert(flat + group.take(0) =~= flat);
            while b < folders.len()
                invariant
                    b <= folders.len(),
                    a < roots.len(),
                    group.len() == folders.len(),
                    group == groups[a as int],
                    forall|j: int|
                        0 <= j < folders.len() ==> #[trigger] group[j] == (m.join)(
                            seq![folders.deep_view()[j], node_modules()],
                        ),
                    m == model_of(*filesystem),
                    *filesystem == self.reads(*input),
                    root == self.root(),
                    exts == input.implicit_ext.deep_view(),
                    groups == root_groups(m, roots.deep_view()),
                    all == node_modules_dirs(m, roots.deep_view()),
                    "node_modules"@ == node_modules(),
                    flat == concat_groups(groups.take(a as int)) + group.take(b as int),
                    seen.deep_view() == first_occurrences(flat),
                    pkg_walk(m, root, seen.deep_view(), path@, exts) == (
                        search.deep_view(),
                        Option::<(Seq<char>, Seq<char>)>::None,
                    ),
                    spec@ == spec_path_spec(reference.deep_view(), fs_base(m, raw_base(*input))),
                    spec@.path == Some(path@),
                    path@.len() > 0,
                    !spec_is_relative_ref(path@),
                    roots.deep_view() == pkg_roots(self.start_paths(), m.native, input.cwd.deep_view()),
                    target == spec_pkg_resolve(
                        m,
                        root,
                        self.start_paths(),
                        reference.deep_view(),
                        raw_base(*input),
                        exts,
                        input.cwd.deep_view(),
                    ),
                decreases folders.len() - b,
            {
                let parts: [&str; 2] = [folders[b].as_str(), "node_modules"];
                assert(parts.deep_view() =~= seq![folders.deep_view()[b as int], node_modules()]);
                let node_modules_dir = filesystem.join(&parts);
                assert(node_modules_dir@ == group[b as int]);
                let ghost before_flat = flat;
                proof {
                    flat = flat.push(node_modules_dir@);
                    assert(group.take(b + 1) =~= group.take(b as int).push(group[b as int]));
                    assert(flat.drop_last() =~= before_flat);
                }
                if contains_text(&seen, node_modules_dir.as_str()) {
                    assert(seen.deep_view() == first_occurrences(flat));
                    b = b + 1;
                    continue;
                }
                push_string(&mut seen, node_modules_dir.clone());
                assert(seen.deep_view() == first_occurrences(flat));
                proof {
                    assert(seen.deep_view().drop_last() =~= first_occurrences(before_flat));
                }
                let hit = self.resolve_in_pkg_dir(
                    filesystem,
                    node_modules_dir.as_str(),
                    path.as_str(),
                    input.implicit_ext,
                    &mut search,
                );
                match hit {
                    Some(pair) => {
                        proof {
                            assert(pkg_walk(m, root, seen.deep_view(), path@, exts).1 is Some);
                            lemma_concat_groups_prefix(groups, a + 1);
                            assert(groups.take(a + 1).drop_last() =~= groups.take(a as int));
                            assert(is_prefix(flat, concat_groups(groups.take(a + 1)))) by {
                                let full_group = concat_groups(groups.take(a + 1));
                                assert(full_group == concat_groups(groups.take(a as int)) + group);
                                assert(full_group.take(flat.len() as int) =~= flat);
                            }
                            lemma_prefix_trans(flat, concat_groups(groups.take(a + 1)), concat_groups(groups));
                            lemma_first_occurrences_prefix(flat, concat_groups(groups));
                            lemma_walk_prefix(m, root, seen.deep_view(), all, path@, exts);
                        }
                        let r = Resolution::found(spec, pair.0, pair.1).with_search(search);
                        assert(r@ == target);
                        return r;
                    },
                    None => {},
                }
                b = b + 1;
            }
            proof {
                assert(group.take(b as int) =~= group);
                assert(groups.take(a + 1).drop_last() =~= groups.take(a as int));
                assert(concat_groups(groups.take(a + 1)) == concat_groups(groups.take(a as int)) + group);
            }
            a = a + 1;
        }
        assert(groups.take(a as int) =~= groups);
        let r = Resolution::not_found(spec).with_search(search);
        assert(r@ == target);
        r
    }

}

proof fn lemma_first_occurrences_keeps(s: Seq<Seq<char>>, x: Seq<char>)
    requires
        s.contains(x),
    ensures
        first_occurrences(s).contains(x),
    decreases s.len(),
{
    let kept = first_occurrences(s.drop_last());
    if s.last() == x {
        if !kept.contains(x) {
            assert(kept.push(x)[kept.len() as int] == x);
        }
    } else {
        let j = choose|j: int| 0 <= j < s.len() && s[j] == x;
        assert(s.drop_last()[j] == x);
        lemma_first_occurrences_keeps(s.drop_last(), x);
        if !kept.contains(s.last()) {
            let k = choose|k: int| 0 <= k < kept.len() && kept[k] == x;
            assert(kept.push(s.last())[k] == x);
        }
    }
}

proof fn lemma_concat_groups_holds(groups: Seq<Seq<Seq<char>>>, i: int, k: int)
    requires
        0 <= i < groups.len(),
        0 <= k < groups[i].len(),
    ensures
        concat_groups(groups).contains(groups[i][k]),
    decreases groups.len(),
{
    let before = concat_groups(groups.drop_last());
    if i == groups.len() - 1 {
        assert((before + groups.last())[before.len() + k] == groups[i][k]);
    } else {
        assert(groups.drop_last()[i] == groups[i]);
        lemma_concat_groups_holds(groups.drop_last(), i, k);
        let j = choose|j: int| 0 <= j < before.len() && before[j] == groups[i][k];
        assert((before + groups.last())[j] == groups[i][k]);
    }
}

proof fn lemma_pkg_step_misses(
    m: FsModel,
    root: Option<Seq<char>>,
    folder: Seq<char>,
    reference: Seq<char>,
    exts: Seq<Seq<char>>,
)
    ensures
        ({
            let target = (m.join)(seq![folder, reference]);
            let step = pkg_step(m, root, folder, reference, exts);
            (step.1 is None && target.len() > 0) ==> {
                &&& file_load(m, Map::empty(), root, target) is None
                &&& step.0.contains(target)
            }
        }),
{
    let target = (m.join)(seq![folder, reference]);
    let cands = spec_potentials(target, exts);
    lemma_first_file_loaded(cands, m, Map::empty(), root);
    if target.len() > 0 {
        assert(cands[0] == target);
        let first = search_list(m, root, cands);
        if first.1 is None {
            let manifest = (m.join)(seq![target, package_json()]);
            let searched = first.0.push(manifest);
            assert(searched[0] == target);
            match file_load(m, Map::empty(), root, manifest) {
                None => {},
                Some(text) => {
                    let second = main_step(m, root, target, json_str_member(text, main_key()), exts);
                    assert((searched + second.0)[0] == target);
                },
            }
        }
    }
}

proof fn lemma_pkg_walk_misses(
    m: FsModel,
    root: Option<Seq<char>>,
    folders: Seq<Seq<char>>,
    reference: Seq<char>,
    exts: Seq<Seq<char>>,
    folder: Seq<char>,
)
    requires
        folders.contains(folder),
        pkg_walk(m, root, folders, reference, exts).1 is None,
        (m.join)(seq![folder, reference]).len() > 0,
    ensures
        file_load(m, Map::empty(), root, (m.join)(seq![folder, reference])) is None,
        pkg_walk(m, root, folders, reference, exts).0.contains((m.join)(seq![folder, reference])),
    decreases folders.len(),
{
    let target = (m.join)(seq![folder, reference]);
    let before = pkg_walk(m, root, folders.drop_last(), reference, exts);
    let step = pkg_step(m, root, folders.last(), reference, exts);
    assert(before.1 is None);
    assert(step.1 is None);
    if folders.last() == folder {
        lemma_pkg_step_misses(m, root, folder, reference, exts);
        let j = choose|j: int| 0 <= j < step.0.len() && step.0[j] == target;
        assert((before.0 + step.0)[before.0.len() + j] == target);
    } else {
        let j = choose|j: int| 0 <= j < folders.len() && folders[j] == folder;
        assert(folders.drop_last()[j] == folder);
        lemma_pkg_walk_misses(m, root, folders.drop_last(), reference, exts, folder);
        let i = choose|i: int| 0 <= i < before.0.len() && before.0[i] == target;
        assert((before.0 + step.0)[i] == target);
    }
}

/// Every configured start folder is searched, not only the first: for
/// each of them, and for each of its parents, the package search visits
/// that folder's `node_modules`, so a package there is found. When
/// nothing is found, the package's folder under every one of them was
/// tried and holds nothing that loads.
pub proof fn law_every_start_folder_is_searched(
    m: FsModel,
    root: Option<Seq<char>>,
    paths: Seq<Seq<char>>,
    reference: Seq<char>,
    raw: Seq<char>,
    exts: Seq<Seq<char>>,
    cwd: Option<Seq<char>>,
    i: int,
    k: int,
)
    requires
        0 <= i < paths.len(),
        0 <= k < spec_ancestors(m, (m.canon)(paths[i])).len(),
        reference.len() > 0,
        !spec_is_relative_ref(reference),
    ensures
        ({
            let r = spec_pkg_resolve(m, root, paths, Some(reference), raw, exts, cwd);
            let folder = (m.join)(seq![spec_ancestors(m, (m.canon)(paths[i]))[k], node_modules()]);
            let target = (m.join)(seq![folder, reference]);
            &&& node_modules_dirs(m, pkg_roots(paths, m.native, cwd)).contains(folder)
            &&& (!r.found && target.len() > 0) ==> {
                &&& file_load(m, Map::empty(), root, target) is None
                &&& r.search.contains(target)
            }
        }),
{
    let roots = pkg_roots(paths, m.native, cwd);
    assert(roots == paths);
    let groups = root_groups(m, roots);
    let folder = (m.join)(seq![spec_ancestors(m, (m.canon)(paths[i]))[k], node_modules()]);
    assert(groups[i][k] == folder);
    lemma_concat_groups_holds(groups, i, k);
    lemma_first_occurrences_keeps(concat_groups(groups), folder);
    let folders = node_modules_dirs(m, roots);
    let target = (m.join)(seq![folder, reference]);
    if pkg_walk(m, root, folders, reference, exts).1 is None && target.len() > 0 {
        lemma_pkg_walk_misses(m, root, folders, reference, exts, folder);
    }
}

proof fn lemma_ancestors_from(m: FsModel, current: Seq<char>, n: nat)
    requires
        n > 0,
    ensures
        ({
            let a = ancestors_from(m, current, n);
            &&& 0 < a.len() <= n
            &&& a[0] == current
            &&& forall|j: int| 0 <= j < a.len() - 1 ==> #[trigger] a[j + 1] == (m.dir)(a[j])
            &&& a.len() < n ==> (m.dir)(a.last()) == a.last()
        }),
    decreases n,
{
    let parent = (m.dir)(current);
    if !(parent == current || n == 1) {
        lemma_ancestors_from(m, parent, (n - 1) as nat);
        let rest = ancestors_from(m, parent, (n - 1) as nat);
        let a = seq![current] + rest;
        assert forall|j: int| 0 <= j < a.len() - 1 implies #[trigger] a[j + 1] == (m.dir)(a[j]) by {
            if j > 0 {
                assert(a[j] == rest[j - 1]);
                assert(a[j + 1] == rest[j]);
                assert(rest[(j - 1) + 1] == (m.dir)(rest[j - 1]));
            } else {
                assert(a[1] == rest[0]);
            }
        }
        assert(a.last() == rest.last());
    }
}

/// The walk up from a start folder begins at that folder itself, each
/// folder after it is the parent of the one before, and it stops early
/// only at a folder that is its own parent: it visits the folder and
/// every parent above it, up to [`MAX_ANCESTORS`] folders.
pub proof fn law_the_walk_climbs_every_parent(m: FsModel, dir: Seq<char>)
    requires
        dir.len() > 0,
    ensures
        ({
            let a = spec_ancestors(m, dir);
            &&& 0 < a.len() <= MAX_ANCESTORS
            &&& a[0] == dir
            &&& forall|j: int| 0 <= j < a.len() - 1 ==> #[trigger] a[j + 1] == (m.dir)(a[j])
            &&& a.len() < MAX_ANCESTORS ==> (m.dir)(a.last()) == a.last()
        }),
{
    lemma_ancestors_from(m, dir, MAX_ANCESTORS as nat);
}

} // verus!
