//! What a resolver reports, and what it is given.

use vstd::prelude::*;

use crate::paths::{ext_kind, spec_ext_kind, PathSpec, PathSpecView};
use crate::shared::SharedFs;

verus! {

/// A source and where it was found.
#[derive(Clone, Debug)]
pub struct Resolution {
    /// The normalized path, rewritten by the resolver when an implicit
    /// extension or an index file matched.
    pub spec: PathSpec,
    /// The source text. `None` when nothing was found.
    pub src: Option<String>,
    /// Whether a source was found.
    pub found: bool,
    /// Every path that was tried, for the not-found report.
    pub search: Vec<String>,
}

/// The mathematical content of a [`Resolution`].
pub struct ResolutionView {
    pub spec: PathSpecView,
    pub src: Option<Seq<char>>,
    pub found: bool,
    pub search: Seq<Seq<char>>,
}

impl View for Resolution {
    type V = ResolutionView;

    open spec fn view(&self) -> ResolutionView {
        ResolutionView {
            spec: self.spec@,
            src: self.src.deep_view(),
            found: self.found,
            search: self.search.deep_view(),
        }
    }
}

/// A resolution that found nothing for `spec`, having tried `search`.
pub open spec fn missing(spec: PathSpecView, search: Seq<Seq<char>>) -> ResolutionView {
    ResolutionView { spec, src: None, found: false, search }
}

/// A resolution that found `src` at `full`, having tried `search`: the
/// spec now names `full`, and its kind is `full`'s.
pub open spec fn located(
    spec: PathSpecView,
    full: Seq<char>,
    src: Seq<char>,
    search: Seq<Seq<char>>,
) -> ResolutionView {
    ResolutionView {
        spec: PathSpecView { kind: spec_ext_kind(full), full: Some(full), ..spec },
        src: Some(src),
        found: true,
        search,
    }
}

/// The path a resolution is known by: the full path, else the reference
/// as written, else `no-path`.
pub open spec fn spec_full_path(spec: PathSpecView) -> Seq<char> {
    match spec.full {
        Some(full) => full,
        None => match spec.path {
            Some(path) => path,
            None => seq!['n', 'o', '-', 'p', 'a', 't', 'h'],
        },
    }
}

impl Default for Resolution {
    /// A resolution of nothing, that found nothing.
    fn default() -> (r: Self)
        ensures
            r@ == missing(
                PathSpecView {
                    kind: Seq::empty(),
                    path: None,
                    full: None,
                    base: Seq::empty(),
                    abs: false,
                },
                Seq::empty(),
            ),
    {
        let spec = PathSpec {
            kind: String::new(),
            path: None,
            full: None,
            base: String::new(),
            abs: false,
        };
        Resolution::not_found(spec)
    }
}

impl Resolution {
    /// A resolution that found nothing, for the spec it was built from.
    pub fn not_found(spec: PathSpec) -> (r: Self)
        ensures
            r@ == missing(spec@, Seq::empty()),
    {
        let r = Resolution { spec, src: None, found: false, search: Vec::new() };
        assert(r.search.deep_view() =~= Seq::<Seq<char>>::empty());
        r
    }

    /// A resolution that found `src` at `full`.
    pub fn found(spec: PathSpec, full: String, src: String) -> (r: Self)
        ensures
            r@ == located(spec@, full@, src@, Seq::empty()),
    {
        let mut spec = spec;
        spec.kind = ext_kind(Some(full.as_str()));
        spec.full = Some(full);
        let r = Resolution { spec, src: Some(src), found: true, search: Vec::new() };
        assert(r.search.deep_view() =~= Seq::<Seq<char>>::empty());
        r
    }

    /// Record the paths that were searched.
    pub fn with_search(self, search: Vec<String>) -> (r: Self)
        ensures
            r@ == (ResolutionView { search: search.deep_view(), ..self@ }),
    {
        let mut r = self;
        r.search = search;
        r
    }

    /// The path this resolution is known by: the normalized full path,
    /// else the reference as written, else `no-path`.
    pub fn full_path(&self) -> (p: String)
        ensures
            p@ == spec_full_path(self.spec@),
    {
        match &self.spec.full {
            Some(full) => full.clone(),
            None => match &self.spec.path {
                Some(path) => path.clone(),
                None => {
                    proof {
                        reveal_strlit("no-path");
                    }
                    let p = String::from_str("no-path");
                    assert(p@ =~= seq!['n', 'o', '-', 'p', 'a', 't', 'h']);
                    p
                },
            },
        }
    }
}

/// What a resolver is given: the plugin options it reads, the path of the
/// source containing the reference (when it was found inside one), and
/// the filesystem the options name.
pub struct ResolverInput<'a> {
    /// The base path references resolve against at the top level.
    pub path: &'a str,
    /// Extensions tried for a reference with none, in order.
    pub implicit_ext: &'a [String],
    /// The full path of the source that contains this reference, when
    /// the reference was found inside another source.
    pub source_path: Option<String>,
    /// The filesystem the file and package resolvers read when they carry
    /// none of their own.
    pub fs: &'a SharedFs,
    /// The working directory, where the package resolver starts its walk
    /// on a native filesystem; `None` when it is not known.
    pub cwd: Option<String>,
}

/// The base a reference resolves against before any file test: the
/// containing source's path, else the configured base path.
pub open spec fn raw_base(input: ResolverInput) -> Seq<char> {
    match input.source_path {
        Some(path) => path@,
        None => input.path@,
    }
}

/// The index of the first of `candidates` that `load` finds, or -1.
pub open spec fn first_loaded(
    candidates: Seq<Seq<char>>,
    load: spec_fn(Seq<char>) -> Option<Seq<char>>,
) -> int
    decreases candidates.len(),
{
    if candidates.len() == 0 {
        -1
    } else if load(candidates[0]) is Some {
        0
    } else if first_loaded(candidates.drop_first(), load) < 0 {
        -1
    } else {
        first_loaded(candidates.drop_first(), load) + 1
    }
}

pub proof fn lemma_first_loaded(
    candidates: Seq<Seq<char>>,
    load: spec_fn(Seq<char>) -> Option<Seq<char>>,
)
    ensures
        -1 <= first_loaded(candidates, load) < candidates.len(),
        first_loaded(candidates, load) >= 0 ==> load(
            candidates[first_loaded(candidates, load)],
        ) is Some,
        forall|j: int|
            0 <= j < candidates.len() && (first_loaded(candidates, load) < 0 || j < first_loaded(
                candidates,
                load,
            )) ==> load(#[trigger] candidates[j]) is None,
    decreases candidates.len(),
{
    if candidates.len() > 0 && load(candidates[0]) is None {
        lemma_first_loaded(candidates.drop_first(), load);
        assert forall|j: int|
            0 <= j < candidates.len() && (first_loaded(candidates, load) < 0 || j < first_loaded(
                candidates,
                load,
            )) implies load(#[trigger] candidates[j]) is None by {
            if j > 0 {
                assert(candidates[j] == candidates.drop_first()[j - 1]);
            }
        }
    }
}

/// Conversely, a candidate that loads, before which none does, is the
/// first one loaded.
pub proof fn lemma_first_loaded_at(
    candidates: Seq<Seq<char>>,
    load: spec_fn(Seq<char>) -> Option<Seq<char>>,
    i: int,
)
    requires
        0 <= i < candidates.len(),
        load(candidates[i]) is Some,
        forall|j: int| 0 <= j < i ==> load(#[trigger] candidates[j]) is None,
    ensures
        first_loaded(candidates, load) == i,
{
    lemma_first_loaded(candidates, load);
}

/// None of `candidates` loads.
pub proof fn lemma_none_loaded(
    candidates: Seq<Seq<char>>,
    load: spec_fn(Seq<char>) -> Option<Seq<char>>,
)
    requires
        forall|j: int| 0 <= j < candidates.len() ==> load(#[trigger] candidates[j]) is None,
    ensures
        first_loaded(candidates, load) == -1,
{
    lemma_first_loaded(candidates, load);
}

} // verus!
