//! The in-memory resolver: a closed world of path to content.

use vstd::prelude::*;

use crate::paths::{
    build_potentials, is_abs_ref, resolve_path_spec, source_dir, spec_ext_kind, spec_path_spec,
    spec_potentials, spec_source_dir, PathSpecView,
};
use crate::resolution::{
    first_loaded, lemma_first_loaded, lemma_first_loaded_at, lemma_none_loaded, located, missing, raw_base, Resolution,
    ResolutionView, ResolverInput,
};
use crate::sorted::SortedMap;

verus! {

/// The candidates a spec with full path `full` is looked up under: every
/// potential path when it names no kind, else the full path alone.
pub open spec fn candidates(spec: PathSpecView, full: Seq<char>, exts: Seq<Seq<char>>) -> Seq<
    Seq<char>,
> {
    if spec.kind.len() == 0 {
        spec_potentials(full, exts)
    } else {
        seq![full]
    }
}

/// Looking a path up in a map of files.
pub open spec fn map_loader(files: Map<Seq<char>, Seq<char>>) -> spec_fn(Seq<char>) -> Option<
    Seq<char>,
> {
    |p: Seq<char>|
        if files.contains_key(p) {
            Some(files[p])
        } else {
            None
        }
}

/// The base a reference resolves against in a map: the containing
/// source's folder when the raw base is itself a key, else the raw base.
pub open spec fn map_base(files: Map<Seq<char>, Seq<char>>, raw: Seq<char>) -> Seq<char> {
    if raw.len() == 0 {
        Seq::empty()
    } else if files.contains_key(raw) {
        spec_source_dir(raw)
    } else {
        raw
    }
}

/// What the map resolver reports for `reference`: the first candidate
/// that is a key, with every candidate as the search list; nothing for a
/// reference with no full path.
pub open spec fn spec_map_resolve(
    files: Map<Seq<char>, Seq<char>>,
    reference: Option<Seq<char>>,
    raw: Seq<char>,
    exts: Seq<Seq<char>>,
) -> ResolutionView {
    let spec = spec_path_spec(reference, map_base(files, raw));
    match spec.full {
        None => missing(spec, Seq::empty()),
        Some(full) => {
            let cands = candidates(spec, full, exts);
            let i = first_loaded(cands, map_loader(files));
            if i >= 0 {
                located(spec, cands[i], files[cands[i]], cands)
            } else {
                missing(spec, cands)
            }
        },
    }
}

/// Resolve references against a map of path to content.
///
/// Keys are used exactly as given, so a map is a closed world: nothing
/// outside it can be reached, whatever a document asks for.
#[derive(Debug)]
pub struct MapResolver {
    files: SortedMap<String>,
}

impl MapResolver {
    /// The files this resolver serves.
    pub closed spec fn files(&self) -> Map<Seq<char>, Seq<char>> {
        self.files.as_map().map_values(|s: String| s@)
    }

    /// A resolver over no sources.
    pub fn new() -> (r: Self)
        ensures
            r.files() == Map::<Seq<char>, Seq<char>>::empty(),
    {
        let r = MapResolver { files: SortedMap::new() };
        assert(r.files() =~= Map::<Seq<char>, Seq<char>>::empty());
        r
    }

    /// A resolver over `files`.
    pub fn from_map(files: SortedMap<String>) -> (r: Self)
        ensures
            r.files() == files.as_map().map_values(|s: String| s@),
    {
        MapResolver { files }
    }

    /// A resolver over these path and content pairs; a later pair for the
    /// same path replaces an earlier one.
    pub fn from_entries(entries: Vec<(String, String)>) -> (r: Self)
        ensures
            r.files() == pairs_map(entries@),
    {
        let mut files: SortedMap<String> = SortedMap::new();
        let mut i: usize = 0;
        let n = entries.len();
        let mut rest = entries;
        proof {
            assert(files.as_map().map_values(|s: String| s@) =~= pairs_map(rest@.take(0)));
        }
        let ghost all = rest@;
        while i < n
            invariant
                i <= n,
                n == all.len(),
                rest@ == all,
                files.as_map().map_values(|s: String| s@) == pairs_map(all.take(i as int)),
            decreases n - i,
        {
            let path = rest[i].0.clone();
            let content = rest[i].1.clone();
            assert(path@ == all[i as int].0@ && content@ == all[i as int].1@);
            let ghost before = files.as_map();
            files.insert(path, content);
            proof {
                assert(all.take(i + 1).drop_last() =~= all.take(i as int));
                assert(files.as_map().map_values(|s: String| s@) =~= pairs_map(all.take(i + 1)));
            }
            i = i + 1;
        }
        assert(all.take(n as int) =~= all);
        MapResolver { files }
    }

    /// Every path this resolver can serve, in sorted order.
    pub fn paths(&self) -> (paths: Vec<&str>)
        ensures
            paths.deep_view().to_set() == self.files().dom(),
            crate::sorted::strictly_sorted(paths.deep_view()),
    {
        let n = self.files.len();
        let paths = self.files.keys_in_order();
        assert(self.files().dom() =~= self.files.as_map().dom());
        paths
    }

    /// Resolve `reference`: only a path that is itself a key names a
    /// source, and only that one is reduced to its containing folder, so
    /// a relative reference resolves against the source that contains it.
    pub fn resolve(&self, reference: Option<&str>, input: &ResolverInput) -> (r: Resolution)
        ensures
            r@ == spec_map_resolve(
                self.files(),
                reference.deep_view(),
                raw_base(*input),
                input.implicit_ext.deep_view(),
            ),
    {
        let ghost files = self.files();
        let raw: &str = match &input.source_path {
            Some(path) => path.as_str(),
            None => input.path,
        };
        let base = if raw.is_empty() {
            String::new()
        } else if self.files.get(raw).is_some() {
            source_dir(raw)
        } else {
            String::from_str(raw)
        };
        assert(base@ == map_base(files, raw_base(*input)));
        let spec = resolve_path_spec(reference, base.as_str());
        let full = match &spec.full {
            None => {
                return Resolution::not_found(spec);
            },
            Some(full) => full.clone(),
        };
        let candidates: Vec<String> = if spec.kind.as_str().is_empty() {
            build_potentials(full.as_str(), input.implicit_ext)
        } else {
            let mut one: Vec<String> = Vec::new();
            crate::text::push_string(&mut one, full.clone());
            assert(one.deep_view() =~= seq![full@]);
            one
        };
        let ghost cands = candidates.deep_view();
        let ghost load = map_loader(files);
        assert(cands == self::candidates(spec@, full@, input.implicit_ext.deep_view()));
        let mut i: usize = 0;
        while i < candidates.len()
            invariant
                i <= candidates.len(),
                cands == candidates.deep_view(),
                files == self.files(),
                load == map_loader(files),
                spec@ == spec_path_spec(reference.deep_view(), map_base(files, raw_base(*input))),
                spec@.full == Some(full@),
                cands == self::candidates(spec@, full@, input.implicit_ext.deep_view()),
                forall|j: int| 0 <= j < i ==> load(#[trigger] cands[j]) is None,
            decreases candidates.len() - i,
        {
            assert(cands[i as int] == candidates[i as int]@);
            match self.files.get(candidates[i].as_str()) {
                Some(src) => {
                    proof {
                        assert(self.files.as_map().contains_key(cands[i as int]));
                        assert(files[cands[i as int]] == src@);
                        lemma_first_loaded_at(cands, load, i as int);
                    }
                    let ghost spec_v = spec@;
                    let path = candidates[i].clone();
                    assert(path@ == cands[i as int]);
                    let text = src.clone();
                    assert(text@ == files[cands[i as int]]);
                    let found = Resolution::found(spec, path, text);
                    return found.with_search(candidates);
                },
                None => {},
            }
            i = i + 1;
        }
        proof {
            lemma_none_loaded(cands, load);
        }
        Resolution::not_found(spec).with_search(candidates)
    }
}

/// The map a sequence of path and content pairs makes, later pairs
/// replacing earlier ones.
pub open spec fn pairs_map(pairs: Seq<(String, String)>) -> Map<Seq<char>, Seq<char>>
    decreases pairs.len(),
{
    if pairs.len() == 0 {
        Map::empty()
    } else {
        pairs_map(pairs.drop_last()).insert(pairs.last().0@, pairs.last().1@)
    }
}

/// A map is a closed world: whatever the map resolver finds is one of
/// its keys, with that key's content and the kind of that key, whatever
/// the reference asks for.
pub proof fn law_map_resolver_is_a_closed_world(
    files: Map<Seq<char>, Seq<char>>,
    reference: Option<Seq<char>>,
    raw: Seq<char>,
    exts: Seq<Seq<char>>,
)
    ensures
        ({
            let r = spec_map_resolve(files, reference, raw, exts);
            r.found ==> {
                &&& r.spec.full is Some
                &&& files.contains_key(r.spec.full->0)
                &&& r.src == Some(files[r.spec.full->0])
                &&& r.spec.kind == spec_ext_kind(r.spec.full->0)
            }
        }),
{
    let spec = spec_path_spec(reference, map_base(files, raw));
    if let Some(full) = spec.full {
        lemma_first_loaded(candidates(spec, full, exts), map_loader(files));
    }
}

/// A relative reference found inside a source that is itself a key of
/// the map resolves from that key's folder, and from nowhere else: a key
/// with no folder leaves the reference as written. The path looked up
/// first is that one, and when it is a key, its content is the source.
pub proof fn law_a_reference_inside_a_key_resolves_from_its_folder(
    files: Map<Seq<char>, Seq<char>>,
    reference: Seq<char>,
    source: Seq<char>,
    exts: Seq<Seq<char>>,
)
    requires
        files.contains_key(source),
        source.len() > 0,
        reference.len() > 0,
        !is_abs_ref(reference),
    ensures
        ({
            let r = spec_map_resolve(files, Some(reference), source, exts);
            let folder = spec_source_dir(source);
            let beside = if folder.len() == 0 {
                reference
            } else {
                folder + seq!['/'] + reference
            };
            &&& r.spec.base == folder
            &&& r.search.len() > 0
            &&& r.search[0] == beside
            &&& files.contains_key(beside) ==> {
                &&& r.found
                &&& r.spec.full == Some(beside)
                &&& r.src == Some(files[beside])
            }
        }),
{
    let spec = spec_path_spec(Some(reference), map_base(files, source));
    let full = spec.full->0;
    let cands = candidates(spec, full, exts);
    assert(cands.len() > 0 && cands[0] == full);
    if files.contains_key(full) {
        lemma_first_loaded_at(cands, map_loader(files), 0);
    }
}

/// A reference whose base is not a key of the map resolves against that
/// base as it stands, and a reference with no base at all, or an
/// absolute one, is looked up as written.
pub proof fn law_a_reference_outside_a_key_resolves_against_its_base(
    files: Map<Seq<char>, Seq<char>>,
    reference: Seq<char>,
    raw: Seq<char>,
    exts: Seq<Seq<char>>,
)
    requires
        reference.len() > 0,
        !files.contains_key(raw),
    ensures
        ({
            let r = spec_map_resolve(files, Some(reference), raw, exts);
            let first = if is_abs_ref(reference) || raw.len() == 0 {
                reference
            } else {
                raw + seq!['/'] + reference
            };
            &&& r.spec.base == raw
            &&& r.search.len() > 0
            &&& r.search[0] == first
            &&& files.contains_key(first) ==> {
                &&& r.found
                &&& r.spec.full == Some(first)
                &&& r.src == Some(files[first])
            }
        }),
{
    let spec = spec_path_spec(Some(reference), map_base(files, raw));
    let full = spec.full->0;
    let cands = candidates(spec, full, exts);
    assert(cands.len() > 0 && cands[0] == full);
    if files.contains_key(full) {
        lemma_first_loaded_at(cands, map_loader(files), 0);
    }
}

} // verus!
