//! The file resolver: references resolved against a filesystem.

use vstd::prelude::*;

use crate::lexical::{spec_within_root, within_root};
use crate::paths::{
    build_potentials, ext_kind, is_abs_ref, resolve_path_spec, spec_ext_kind, spec_path_spec,
    spec_potentials, PathSpecView,
};
use crate::resolution::{
    first_loaded, lemma_first_loaded_at, lemma_none_loaded, located, missing, raw_base, Resolution,
    ResolutionView, ResolverInput,
};
use crate::shared::{model_of, IntoSharedFs, IntoSharedPathFinder, SharedFs, SharedPathFinder};
use crate::sorted::SortedMap;
use crate::text::{push_string, str_eq};
use crate::vfs::{fs_model, FsModel, SourceFs};

verus! {

/// How many parent folders a reference is chased up through when looking
/// for a linked package.
pub const NODE_MODULES_LEVELS: usize = 7;

/// `node_modules` as text.
pub open spec fn node_modules() -> Seq<char> {
    seq!['n', 'o', 'd', 'e', '_', 'm', 'o', 'd', 'u', 'l', 'e', 's']
}

/// The base a reference resolves against on a filesystem: the directory
/// of the raw base when a file is there, else the raw base.
pub open spec fn fs_base(m: FsModel, raw: Seq<char>) -> Seq<char> {
    if raw.len() == 0 {
        Seq::empty()
    } else if (m.read_file)(raw) is Some {
        (m.dir)(raw)
    } else {
        raw
    }
}

/// Whether a root, if there is one, admits `path` on the filesystem `m`:
/// both are first reduced to the real paths they name, every link on the
/// way followed, and the candidate's real path must lie at or below the
/// root's. A path or a root that cannot be reduced to a real one is
/// refused, so a link is judged by where it leads, never by its spelling.
pub open spec fn admitted(m: FsModel, root: Option<Seq<char>>, path: Seq<char>) -> bool {
    match root {
        Some(r) => match ((m.real_path)(path), (m.real_path)(r)) {
            (Some(resolved), Some(resolved_root)) => spec_within_root(resolved, resolved_root, m.native, m.separator),
            _ => false,
        },
        None => true,
    }
}

/// Loading a path for the file resolver: refused outside the root, served
/// from the preload when it is there, read from the filesystem otherwise.
pub open spec fn file_load(
    m: FsModel,
    preload: Map<Seq<char>, Seq<char>>,
    root: Option<Seq<char>>,
    p: Seq<char>,
) -> Option<Seq<char>> {
    if !admitted(m, root, p) {
        None
    } else if preload.contains_key(p) {
        Some(preload[p])
    } else {
        (m.read_file)(p)
    }
}

/// The index of the first of `candidates` that [`file_load`] finds, or -1.
pub open spec fn first_file_loaded(
    candidates: Seq<Seq<char>>,
    m: FsModel,
    preload: Map<Seq<char>, Seq<char>>,
    root: Option<Seq<char>>,
) -> int
    decreases candidates.len(),
{
    if candidates.len() == 0 {
        -1
    } else if file_load(m, preload, root, candidates[0]) is Some {
        0
    } else if first_file_loaded(candidates.drop_first(), m, preload, root) < 0 {
        -1
    } else {
        first_file_loaded(candidates.drop_first(), m, preload, root) + 1
    }
}

pub proof fn lemma_first_file_loaded(
    candidates: Seq<Seq<char>>,
    m: FsModel,
    preload: Map<Seq<char>, Seq<char>>,
    root: Option<Seq<char>>,
)
    ensures
        -1 <= first_file_loaded(candidates, m, preload, root) < candidates.len(),
        first_file_loaded(candidates, m, preload, root) >= 0 ==> file_load(
            m,
            preload,
            root,
            candidates[first_file_loaded(candidates, m, preload, root)],
        ) is Some,
        forall|j: int|
            0 <= j < candidates.len() && (first_file_loaded(candidates, m, preload, root) < 0
                || j < first_file_loaded(candidates, m, preload, root)) ==> file_load(
                m,
                preload,
                root,
                #[trigger] candidates[j],
            ) is None,
    decreases candidates.len(),
{
    if candidates.len() > 0 && file_load(m, preload, root, candidates[0]) is None {
        lemma_first_file_loaded(candidates.drop_first(), m, preload, root);
        assert forall|j: int|
            0 <= j < candidates.len() && (first_file_loaded(candidates, m, preload, root) < 0
                || j < first_file_loaded(candidates, m, preload, root)) implies file_load(
            m,
            preload,
            root,
            #[trigger] candidates[j],
        ) is None by {
            if j > 0 {
                assert(candidates[j] == candidates.drop_first()[j - 1]);
            }
        }
    }
}

/// The `node_modules/<path>` candidates from `level` up through its
/// parents, at most `n` of them, stopping once a parent repeats.
pub open spec fn node_modules_chase(
    m: FsModel,
    level: Seq<char>,
    last: Option<Seq<char>>,
    path: Seq<char>,
    n: nat,
) -> Seq<Seq<char>>
    decreases n,
{
    if n == 0 {
        Seq::empty()
    } else {
        let candidate = (m.canon)((m.join)(seq![level, node_modules(), path]));
        let parent = (m.dir)(level);
        if last == Some(parent) {
            seq![candidate]
        } else {
            seq![candidate] + node_modules_chase(m, parent, Some(parent), path, (n - 1) as nat)
        }
    }
}

/// What the file resolver reports for an already rewritten reference.
///
/// The full path is canonicalised and tried first; then the linked
/// package candidates of the reference, and, for a reference with no
/// kind, its implicit extensions and index files. The first candidate
/// that loads is the source; every path tried is the search list.
pub open spec fn spec_file_resolve(
    m: FsModel,
    preload: Map<Seq<char>, Seq<char>>,
    root: Option<Seq<char>>,
    found: Option<Seq<char>>,
    raw: Seq<char>,
    exts: Seq<Seq<char>>,
) -> ResolutionView {
    let base = fs_base(m, raw);
    let spec0 = spec_path_spec(found, base);
    match spec0.full {
        None => missing(spec0, Seq::empty()),
        Some(full0) => {
            let full = (m.canon)(full0);
            let spec = PathSpecView { full: Some(full), kind: spec_ext_kind(full), ..spec0 };
            if file_load(m, preload, root, full) is Some {
                located(spec, full, file_load(m, preload, root, full)->0, seq![full])
            } else {
                let chase = match spec.path {
                    Some(path) => node_modules_chase(m, base, None, path, NODE_MODULES_LEVELS as nat),
                    None => Seq::empty(),
                };
                let all = spec_potentials(full, exts);
                let extra = if spec.kind.len() == 0 && all.len() > 0 {
                    all.skip(1)
                } else {
                    Seq::empty()
                };
                let potentials = chase + extra;
                let search = seq![full] + potentials;
                let i = first_file_loaded(potentials, m, preload, root);
                if i >= 0 {
                    located(spec, potentials[i], file_load(m, preload, root, potentials[i])->0, search)
                } else {
                    missing(spec, search)
                }
            }
        },
    }
}

/// Resolve references against a filesystem.
///
/// By default that is the filesystem the plugin options name; give the
/// resolver a filesystem of its own and it reads only that one; give it
/// a root and no reference can name anything outside that directory,
/// however many `..` segments it carries.
pub struct FileResolver {
    pathfinder: Option<SharedPathFinder>,
    preload: SortedMap<String>,
    fs: Option<SharedFs>,
    root: Option<String>,
}

impl FileResolver {
    /// The preloaded files.
    pub closed spec fn preloaded(&self) -> Map<Seq<char>, Seq<char>> {
        self.preload.as_map().map_values(|s: String| s@)
    }

    /// The root every candidate is confined to, if there is one.
    pub closed spec fn root(&self) -> Option<Seq<char>> {
        self.root.deep_view()
    }

    /// The path finder that rewrites references first, if there is one.
    pub closed spec fn finder(&self) -> Option<SharedPathFinder> {
        self.pathfinder
    }

    /// Whether a path finder rewrites references first.
    pub closed spec fn has_pathfinder(&self) -> bool {
        self.pathfinder is Some
    }

    /// The filesystem of the resolver's own, if it has one.
    pub closed spec fn own_fs(&self) -> Option<SharedFs> {
        self.fs
    }

    /// A resolver over the filesystem the options name, with no path
    /// finder, no preload and no root.
    pub fn new() -> (r: Self)
        ensures
            !r.has_pathfinder(),
            r.preloaded() == Map::<Seq<char>, Seq<char>>::empty(),
            r.own_fs() is None,
            r.root() is None,
    {
        let r = FileResolver { pathfinder: None, preload: SortedMap::new(), fs: None, root: None };
        assert(r.preloaded() =~= Map::<Seq<char>, Seq<char>>::empty());
        r
    }

    /// Transform each raw reference before resolving it.
    pub fn with_pathfinder(self, pathfinder: impl IntoSharedPathFinder) -> (r: Self)
        ensures
            r.has_pathfinder(),
            r.finder() is Some,
            forall|reference: Seq<char>| #[trigger] r.rewrite(reference) == pathfinder.spec_find(reference),
            r.preloaded() == self.preloaded(),
            r.own_fs() == self.own_fs(),
            r.root() == self.root(),
    {
        let shared = crate::shared::share_path_finder(pathfinder);
        let r = FileResolver { pathfinder: Some(shared), ..self };
        assert(r.finder() == Some(shared));
        r
    }

    /// Serve these paths from memory before touching the filesystem.
    pub fn with_preload(self, preload: SortedMap<String>) -> (r: Self)
        ensures
            r.has_pathfinder() == self.has_pathfinder(),
            r.finder() == self.finder(),
            r.preloaded() == preload.as_map().map_values(|s: String| s@),
            r.own_fs() == self.own_fs(),
            r.root() == self.root(),
    {
        FileResolver { preload, ..self }
    }

    /// Read from an already shared filesystem handle instead of the one
    /// the plugin options name.
    pub fn with_shared_fs(self, filesystem: SharedFs) -> (r: Self)
        ensures
            r.has_pathfinder() == self.has_pathfinder(),
            r.finder() == self.finder(),
            r.preloaded() == self.preloaded(),
            r.own_fs() == Some(filesystem),
            r.root() == self.root(),
    {
        FileResolver { fs: Some(filesystem), ..self }
    }

    /// Read from `filesystem` instead of the one the plugin options name.
    pub fn with_fs(self, filesystem: impl IntoSharedFs) -> (r: Self)
        ensures
            r.has_pathfinder() == self.has_pathfinder(),
            r.finder() == self.finder(),
            r.preloaded() == self.preloaded(),
            r.own_fs() matches Some(fs) && model_of(fs) == fs_model(&filesystem),
            r.root() == self.root(),
    {
        self.with_shared_fs(crate::shared::share_fs(filesystem))
    }

    /// Confine every candidate path to `root`.
    ///
    /// Paths are compared after `.` and `..` are resolved lexically and
    /// by whole segment, so neither `../../etc/passwd` nor a sibling
    /// directory whose name merely starts with the root's can be reached.
    pub fn with_root(self, root: &str) -> (r: Self)
        ensures
            r.has_pathfinder() == self.has_pathfinder(),
            r.finder() == self.finder(),
            r.preloaded() == self.preloaded(),
            r.own_fs() == self.own_fs(),
            r.root() == Some(root@),
    {
        FileResolver { root: Some(String::from_str(root)), ..self }
    }

    /// Whether the root, if any, admits `candidate` on `filesystem`.
    fn allowed(&self, filesystem: &SharedFs, candidate: &str) -> (r: bool)
        ensures
            r == admitted(model_of(*filesystem), self.root(), candidate@),
    {
        match &self.root {
            Some(root) => admitted_by_root(filesystem, root.as_str(), candidate),
            None => true,
        }
    }

    /// Load `path` as the resolver does: refused outside the root, served
    /// from the preload when it is there, read from `filesystem`
    /// otherwise.
    fn load(&self, filesystem: &SharedFs, path: &str) -> (r: Option<String>)
        ensures
            r.deep_view() == file_load(model_of(*filesystem), self.preloaded(), self.root(), path@),
    {
        if !self.allowed(filesystem, path) {
            return None;
        }
        match self.preload.get(path) {
            Some(src) => Some(src.clone()),
            None => filesystem.read_file(path),
        }
    }

    /// The filesystem this resolver reads for `input`: its own, else the
    /// one the options name.
    pub open spec fn reads(&self, input: ResolverInput) -> SharedFs {
        match self.own_fs() {
            Some(fs) => fs,
            None => *input.fs,
        }
    }

    /// What the path finder makes of `reference`.
    pub open spec fn rewrite(&self, reference: Seq<char>) -> Seq<char> {
        (**self.finder()->0).spec_find(reference)
    }

    /// Resolve `reference`, first rewriting it with the path finder when
    /// there is one: the result is [`Self::resolve_found`] of what the path
    /// finder makes of the reference, or of the reference itself when
    /// there is no path finder or no reference.
    pub fn resolve(&self, reference: Option<&str>, input: &ResolverInput) -> (r: Resolution)
        ensures
            (!self.has_pathfinder() || reference is None) ==> r@ == spec_file_resolve(
                model_of(self.reads(*input)),
                self.preloaded(),
                self.root(),
                reference.deep_view(),
                raw_base(*input),
                input.implicit_ext.deep_view(),
            ),
            (self.has_pathfinder() && reference is Some) ==> r@ == spec_file_resolve(
                model_of(self.reads(*input)),
                self.preloaded(),
                self.root(),
                Some(self.rewrite(reference->0@)),
                raw_base(*input),
                input.implicit_ext.deep_view(),
            ),
    {
        match (&self.pathfinder, reference) {
            (Some(pathfinder), Some(reference)) => {
                let found = (***pathfinder).find(reference);
                self.resolve_found(Some(found.as_str()), input)
            },
            _ => self.resolve_found(reference, input),
        }
    }

    /// Resolve an already rewritten reference.
    pub fn resolve_found(&self, found: Option<&str>, input: &ResolverInput) -> (r: Resolution)
        ensures
            r@ == spec_file_resolve(
                model_of(self.reads(*input)),
                self.preloaded(),
                self.root(),
                found.deep_view(),
                raw_base(*input),
                input.implicit_ext.deep_view(),
            ),
    {
        let filesystem: &SharedFs = match &self.fs {
            Some(fs) => fs,
            None => input.fs,
        };
        assert(*filesystem == self.reads(*input));
        let ghost preloaded = self.preloaded();
        let ghost root = self.root();
        let raw: &str = match &input.source_path {
            Some(path) => path.as_str(),
            None => input.path,
        };
        let base = if raw.is_empty() {
            String::new()
        } else if filesystem.read_file(raw).is_some() {
            filesystem.dir(raw)
        } else {
            String::from_str(raw)
        };
        assert(base@ == fs_base(model_of(*filesystem), raw_base(*input)));
        let spec0 = resolve_path_spec(found, base.as_str());
        let full0 = match &spec0.full {
            None => {
                return Resolution::not_found(spec0);
            },
            Some(full) => full.clone(),
        };
        let full = filesystem.canon(full0.as_str());
        let mut spec = spec0;
        spec.full = Some(full.clone());
        spec.kind = ext_kind(Some(full.as_str()));
        let mut search: Vec<String> = Vec::new();
        push_string(&mut search, full.clone());
        assert(search.deep_view() =~= seq![full@]);
        if let Some(src) = self.load(filesystem, full.as_str()) {
            return Resolution::found(spec, full, src).with_search(search);
        }
        let mut potentials: Vec<String> = Vec::new();
        if let Some(path) = &spec.path {
            potentials = self::chase(filesystem, base.as_str(), path.as_str());
        }
        assert(potentials.deep_view() == match spec@.path {
            Some(path) => node_modules_chase(model_of(*filesystem), base@, None, path, NODE_MODULES_LEVELS as nat),
            None => Seq::<Seq<char>>::empty(),
        });
        let all = build_potentials(full.as_str(), input.implicit_ext);
        if spec.kind.as_str().is_empty() && all.len() > 0 {
            let ghost before = potentials.deep_view();
            let mut k: usize = 1;
            let ghost pots = all.deep_view();
            proof {
                assert(pots.skip(1).take(0) =~= Seq::<Seq<char>>::empty());
            }
            while k < all.len()
                invariant
                    1 <= k <= all.len(),
                    pots == all.deep_view(),
                    pots.len() > 0,
                    potentials.deep_view() =~= before + pots.skip(1).take(k - 1),
                decreases all.len() - k,
            {
                push_string(&mut potentials, all[k].clone());
                assert(pots.skip(1).take(k as int) =~= pots.skip(1).take(k - 1).push(pots[k as int]));
                k = k + 1;
            }
            assert(pots.skip(1).take(k - 1) =~= pots.skip(1));
        }
        let ghost pots = potentials.deep_view();
        assert(pots =~= match spec@.path {
            Some(path) => node_modules_chase(model_of(*filesystem), base@, None, path, NODE_MODULES_LEVELS as nat),
            None => Seq::<Seq<char>>::empty(),
        } + if spec@.kind.len() == 0 && all.deep_view().len() > 0 {
            all.deep_view().skip(1)
        } else {
            Seq::<Seq<char>>::empty()
        });
        let mut i: usize = 0;
        while i < potentials.len()
            invariant
                i <= potentials.len(),
                pots == potentials.deep_view(),
                search.deep_view() == seq![full@] + pots.take(i as int),
            decreases potentials.len() - i,
        {
            push_string(&mut search, potentials[i].clone());
            assert(pots.take(i + 1) =~= pots.take(i as int).push(pots[i as int]));
            i = i + 1;
        }
        assert(pots.take(i as int) =~= pots);
        let ghost model = model_of(*filesystem);
        let ghost target = spec_file_resolve(
            model,
            self.preloaded(),
            self.root(),
            found.deep_view(),
            raw_base(*input),
            input.implicit_ext.deep_view(),
        );
        assert(target == (if first_file_loaded(pots, model, preloaded, root) >= 0 {
            located(
                spec@,
                pots[first_file_loaded(pots, model, preloaded, root)],
                file_load(model, preloaded, root, pots[first_file_loaded(pots, model, preloaded, root)])->0,
                seq![full@] + pots,
            )
        } else {
            missing(spec@, seq![full@] + pots)
        }));
        let mut i: usize = 0;
        while i < potentials.len()
            invariant
                i <= potentials.len(),
                pots == potentials.deep_view(),
                model == model_of(*filesystem),
                search.deep_view() == seq![full@] + pots,
                target == spec_file_resolve(
                    model_of(self.reads(*input)),
                    self.preloaded(),
                    self.root(),
                    found.deep_view(),
                    raw_base(*input),
                    input.implicit_ext.deep_view(),
                ),
                target == (if first_file_loaded(pots, model, preloaded, root) >= 0 {
                    located(
                        spec@,
                        pots[first_file_loaded(pots, model, preloaded, root)],
                        file_load(model, preloaded, root, pots[first_file_loaded(pots, model, preloaded, root)])->0,
                        seq![full@] + pots,
                    )
                } else {
                    missing(spec@, seq![full@] + pots)
                }),
                preloaded == self.preloaded(),
                root == self.root(),
                forall|j: int| 0 <= j < i ==> file_load(model_of(*filesystem), preloaded, root, #[trigger] pots[j]) is None,
            decreases potentials.len() - i,
        {
            assert(pots[i as int] == potentials[i as int]@);
            if let Some(src) = self.load(filesystem, potentials[i].as_str()) {
                proof {
                    lemma_first_file_loaded(pots, model_of(*filesystem), preloaded, root);
                }
                let candidate = potentials[i].clone();
                return Resolution::found(spec, candidate, src).with_search(search);
            }
            i = i + 1;
        }
        proof {
            lemma_first_file_loaded(pots, model_of(*filesystem), preloaded, root);
        }
        Resolution::not_found(spec).with_search(search)
    }
}

/// Whether `root` admits `candidate` on `filesystem`, comparing the real
/// paths of both.
pub(crate) fn admitted_by_root(filesystem: &SharedFs, root: &str, candidate: &str) -> (r: bool)
    ensures
        r == admitted(model_of(*filesystem), Some(root@), candidate@),
{
    let resolved = match filesystem.real_path(candidate) {
        Some(resolved) => resolved,
        None => {
            return false;
        },
    };
    let resolved_root = match filesystem.real_path(root) {
        Some(resolved_root) => resolved_root,
        None => {
            return false;
        },
    };
    let native = filesystem.native_paths();
    let separator = filesystem.separator();
    within_root(resolved.as_str(), resolved_root.as_str(), native, separator)
}

/// The linked-package candidates of `path`, from `base` up through its
/// parents.
fn chase(filesystem: &SharedFs, base: &str, path: &str) -> (r: Vec<String>)
    ensures
        r.deep_view() == node_modules_chase(
            model_of(*filesystem),
            base@,
            None,
            path@,
            NODE_MODULES_LEVELS as nat,
        ),
{
    let mut out: Vec<String> = Vec::new();
    let mut level = String::from_str(base);
    let mut last: Option<String> = None;
    let mut count: usize = 0;
    proof {
        reveal_strlit("node_modules");
        assert("node_modules"@ =~= node_modules());
    }
    while count < NODE_MODULES_LEVELS
        invariant
            count <= NODE_MODULES_LEVELS,
            "node_modules"@ == node_modules(),
            out.deep_view() + node_modules_chase(
                model_of(*filesystem),
                level@,
                last.deep_view(),
                path@,
                (NODE_MODULES_LEVELS - count) as nat,
            ) == node_modules_chase(
                model_of(*filesystem),
                base@,
                None,
                path@,
                NODE_MODULES_LEVELS as nat,
            ),
        decreases NODE_MODULES_LEVELS - count,
    {
        let parts: [&str; 3] = [level.as_str(), "node_modules", path];
        assert(parts.deep_view() =~= seq![level@, node_modules(), path@]);
        let joined = filesystem.join(&parts);
        assert(joined@ == (model_of(*filesystem).join)(seq![level@, node_modules(), path@]));
        let candidate = filesystem.canon(joined.as_str());
        let ghost cv = candidate@;
        let ghost n = (NODE_MODULES_LEVELS - count) as nat;
        let ghost before = out.deep_view();
        push_string(&mut out, candidate);
        let parent = filesystem.dir(level.as_str());
        let repeat = match &last {
            Some(previous) => str_eq(previous.as_str(), parent.as_str()),
            None => false,
        };
        assert(repeat == (last.deep_view() == Some(parent@)));
        assert(node_modules_chase(model_of(*filesystem), level@, last.deep_view(), path@, n) == if last.deep_view()
            == Some(parent@) {
            seq![cv]
        } else {
            seq![cv] + node_modules_chase(model_of(*filesystem), parent@, Some(parent@), path@, (n - 1) as nat)
        });
        if repeat {
            assert(out.deep_view() =~= before + seq![cv]);
            return out;
        }
        assert(before + node_modules_chase(model_of(*filesystem), level@, last.deep_view(), path@, n)
            =~= out.deep_view() + node_modules_chase(
            model_of(*filesystem),
            parent@,
            Some(parent@),
            path@,
            (n - 1) as nat,
        ));
        last = Some(parent.clone());
        level = parent;
        count = count + 1;
    }
    assert(out.deep_view() =~= out.deep_view() + Seq::<Seq<char>>::empty());
    out
}

/// The file resolver finds only what its root admits, and what it finds
/// is what is there: the preloaded content where the path is preloaded,
/// else the filesystem's.
pub proof fn law_file_resolver_finds_only_what_it_admits(
    m: FsModel,
    preload: Map<Seq<char>, Seq<char>>,
    root: Option<Seq<char>>,
    found: Option<Seq<char>>,
    raw: Seq<char>,
    exts: Seq<Seq<char>>,
)
    ensures
        ({
            let r = spec_file_resolve(m, preload, root, found, raw, exts);
            r.found ==> {
                &&& r.spec.full is Some
                &&& admitted(m, root, r.spec.full->0)
                &&& r.src == file_load(m, preload, root, r.spec.full->0)
                &&& r.src == (if preload.contains_key(r.spec.full->0) {
                    Some(preload[r.spec.full->0])
                } else {
                    (m.read_file)(r.spec.full->0)
                })
                &&& r.spec.kind == spec_ext_kind(r.spec.full->0)
            }
        }),
{
    let base = fs_base(m, raw);
    let spec0 = spec_path_spec(found, base);
    if let Some(full0) = spec0.full {
        let full = (m.canon)(full0);
        let spec = PathSpecView { full: Some(full), kind: spec_ext_kind(full), ..spec0 };
        if file_load(m, preload, root, full) is None {
            let chase = match spec.path {
                Some(path) => node_modules_chase(m, base, None, path, NODE_MODULES_LEVELS as nat),
                None => Seq::empty(),
            };
            let all = spec_potentials(full, exts);
            let extra = if spec.kind.len() == 0 && all.len() > 0 {
                all.skip(1)
            } else {
                Seq::empty()
            };
            lemma_first_file_loaded(chase + extra, m, preload, root);
        }
    }
}

/// With a root, whatever the file resolver finds is judged by where it
/// really is: its real path, every link followed, lies at or below the
/// root's real path, so no `..`, absolute path, link or dangling link
/// reaches a file outside the root.
pub proof fn law_a_rooted_file_resolver_follows_links(
    m: FsModel,
    preload: Map<Seq<char>, Seq<char>>,
    root: Seq<char>,
    found: Option<Seq<char>>,
    raw: Seq<char>,
    exts: Seq<Seq<char>>,
)
    ensures
        ({
            let r = spec_file_resolve(m, preload, Some(root), found, raw, exts);
            r.found ==> {
                &&& r.spec.full is Some
                &&& (m.real_path)(r.spec.full->0) is Some
                &&& (m.real_path)(root) is Some
                &&& spec_within_root(
                    (m.real_path)(r.spec.full->0)->0,
                    (m.real_path)(root)->0,
                    m.native,
                    m.separator,
                )
            }
        }),
{
    law_file_resolver_finds_only_what_it_admits(m, preload, Some(root), found, raw, exts);
}

/// A relative reference found inside a source that is a readable file
/// resolves beside that file: the path tried first is the reference
/// joined to the file's parent directory, never to the file's own path,
/// and when something loads there, that is the source found.
pub proof fn law_a_reference_inside_a_file_resolves_beside_it(
    m: FsModel,
    preload: Map<Seq<char>, Seq<char>>,
    root: Option<Seq<char>>,
    reference: Seq<char>,
    source: Seq<char>,
    exts: Seq<Seq<char>>,
)
    requires
        source.len() > 0,
        (m.read_file)(source) is Some,
        reference.len() > 0,
        !is_abs_ref(reference),
    ensures
        ({
            let r = spec_file_resolve(m, preload, root, Some(reference), source, exts);
            let folder = (m.dir)(source);
            let beside = (m.canon)(
                if folder.len() == 0 {
                    reference
                } else {
                    folder + seq!['/'] + reference
                },
            );
            &&& r.spec.base == folder
            &&& r.search.len() > 0
            &&& r.search[0] == beside
            &&& file_load(m, preload, root, beside) is Some ==> {
                &&& r.found
                &&& r.spec.full == Some(beside)
                &&& r.src == file_load(m, preload, root, beside)
            }
        }),
{
}

/// A reference whose base is not a readable file resolves against that
/// base as it stands, a folder or the configured path, and a reference
/// with no base at all is tried as written; an absolute reference is
/// tried as written whatever the base. The path tried first is that one.
pub proof fn law_a_reference_outside_a_file_resolves_against_its_base(
    m: FsModel,
    preload: Map<Seq<char>, Seq<char>>,
    root: Option<Seq<char>>,
    reference: Seq<char>,
    raw: Seq<char>,
    exts: Seq<Seq<char>>,
)
    requires
        reference.len() > 0,
        raw.len() == 0 || (m.read_file)(raw) is None,
    ensures
        ({
            let r = spec_file_resolve(m, preload, root, Some(reference), raw, exts);
            let first = (m.canon)(
                if is_abs_ref(reference) || raw.len() == 0 {
                    reference
                } else {
                    raw + seq!['/'] + reference
                },
            );
            &&& r.spec.base == raw
            &&& r.search.len() > 0
            &&& r.search[0] == first
            &&& file_load(m, preload, root, first) is Some ==> {
                &&& r.found
                &&& r.spec.full == Some(first)
                &&& r.src == file_load(m, preload, root, first)
            }
        }),
{
}

} // verus!
