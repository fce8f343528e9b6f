//! What a directive does with the resolution of its reference: report a
//! missing source, refuse a cycle or a chain nested too deep, or load the
//! source under its ancestor chain.

use vstd::prelude::*;

use crate::paths::spec_ext_kind;
use crate::resolution::{spec_full_path, Resolution, ResolutionView};
use crate::text::{concat3, push_string, str_eq};

verus! {

/// The top of the dependency tree: the target key for sources referenced
/// directly by the top-level parse. The leading NUL character keeps it
/// apart from every real source path.
pub const TOP: &'static str = "\0TOP";

/// The plugin name, as the engine records it.
pub const PLUGIN_NAME: &'static str = "MultiSource";

/// The rule and directive this plugin installs.
pub const RULE_NAME: &'static str = "multisource";

/// The default directive character.
pub const DEFAULT_MARKCHAR: &'static str = "@";

/// How deep a chain of sources may nest before the parse is failed.
///
/// Each nested source is parsed inside the parse that referenced it, so
/// the chain runs on the call stack; without a cap a long acyclic chain
/// would exhaust it.
pub const DEFAULT_MAX_DEPTH: usize = 64;

/// This crate's version.
pub const VERSION: &'static str = "0.5.8";

/// [`TOP`] as text.
pub open spec fn top() -> Seq<char> {
    seq!['\0', 'T', 'O', 'P']
}

/// `parts` joined with `sep` between each two.
pub open spec fn joined(parts: Seq<Seq<char>>, sep: Seq<char>) -> Seq<char>
    decreases parts.len(),
{
    if parts.len() == 0 {
        Seq::empty()
    } else if parts.len() == 1 {
        parts[0]
    } else {
        joined(parts.drop_last(), sep) + sep + parts.last()
    }
}

/// A line break.
pub open spec fn newline() -> Seq<char> {
    seq!['\n']
}

/// The arrow a cycle report links sources with.
pub open spec fn arrow() -> Seq<char> {
    seq![' ', '-', '>', ' ']
}

/// `parts` joined with `sep` between each two.
pub fn join_texts(parts: &Vec<String>, sep: &str) -> (r: String)
    ensures
        r@ == joined(parts.deep_view(), sep@),
{
    let ghost all = parts.deep_view();
    if parts.len() == 0 {
        return String::new();
    }
    let mut out = parts[0].clone();
    assert(all.take(1) =~= seq![all[0]]);
    let mut i: usize = 1;
    while i < parts.len()
        invariant
            1 <= i <= parts.len(),
            all == parts.deep_view(),
            out@ == joined(all.take(i as int), sep@),
        decreases parts.len() - i,
    {
        out = concat3(out.as_str(), sep, parts[i].as_str());
        assert(all.take(i + 1).drop_last() =~= all.take(i as int));
        i = i + 1;
    }
    assert(all.take(i as int) =~= all);
    out
}

/// The ancestor chain of a source: the chain it inherited, then the
/// source that contains it, when there is one.
pub open spec fn spec_parents(inherited: Seq<Seq<char>>, source: Option<Seq<char>>) -> Seq<
    Seq<char>,
> {
    match source {
        Some(path) => inherited.push(path),
        None => inherited,
    }
}

/// The first index at which `s` holds `x`, when it holds it.
pub open spec fn first_at(s: Seq<Seq<char>>, x: Seq<char>) -> int {
    choose|i: int| 0 <= i < s.len() && s[i] == x && forall|j: int| 0 <= j < i ==> s[j] != x
}

/// The paths a not-found report lists: those searched, else the full
/// path alone, when there is one.
pub open spec fn reported_search(r: ResolutionView) -> Seq<Seq<char>> {
    if r.search.len() > 0 {
        r.search
    } else {
        match r.spec.full {
            Some(full) => seq![full],
            None => Seq::empty(),
        }
    }
}

/// What a directive does.
#[derive(Clone, Debug, PartialEq, Eq)]
pub enum Directive {
    /// Nothing was found: report the reference, the full path and the
    /// paths searched, one per line.
    NotFound { path: String, full: String, searchstr: String },
    /// The source is one of its own ancestors: report it and the loop,
    /// from its first appearance back round to itself.
    Cycle { path: String, cycle: String },
    /// The chain of ancestors is already `max` long.
    TooDeep { path: String, max: usize },
    /// Load the source at `fullpath`, of kind `kind`, under the ancestor
    /// chain `parents`, recording it as a dependency of `target`.
    Load { fullpath: String, kind: String, parents: Vec<String>, target: String },
}

/// The mathematical content of a [`Directive`].
pub enum DirectiveView {
    NotFound { path: Seq<char>, full: Seq<char>, searchstr: Seq<char> },
    Cycle { path: Seq<char>, cycle: Seq<char> },
    TooDeep { path: Seq<char>, max: nat },
    Load { fullpath: Seq<char>, kind: Seq<char>, parents: Seq<Seq<char>>, target: Seq<char> },
}

impl View for Directive {
    type V = DirectiveView;

    open spec fn view(&self) -> DirectiveView {
        match self {
            Directive::NotFound { path, full, searchstr } => DirectiveView::NotFound {
                path: path@,
                full: full@,
                searchstr: searchstr@,
            },
            Directive::Cycle { path, cycle } => DirectiveView::Cycle { path: path@, cycle: cycle@ },
            Directive::TooDeep { path, max } => DirectiveView::TooDeep {
                path: path@,
                max: *max as nat,
            },
            Directive::Load { fullpath, kind, parents, target } => DirectiveView::Load {
                fullpath: fullpath@,
                kind: kind@,
                parents: parents.deep_view(),
                target: target@,
            },
        }
    }
}

/// What a directive does with resolution `r` of `reference`, found in a
/// source whose own ancestors are `inherited` and whose path is `source`
/// (none at the top level), when chains may nest `max_depth` deep.
///
/// A source that is not found is reported, under the reference as the
/// resolver read it, else as written. A found source that is one of its
/// own ancestors is a cycle; a source reached along two branches is not,
/// since only the ancestor chain counts. An acyclic chain already
/// `max_depth` long is too deep. Otherwise the source is loaded, as a
/// dependency of its nearest ancestor, or of [`TOP`].
pub open spec fn spec_directive(
    r: ResolutionView,
    reference: Option<Seq<char>>,
    inherited: Seq<Seq<char>>,
    source: Option<Seq<char>>,
    max_depth: nat,
) -> DirectiveView {
    if !r.found {
        DirectiveView::NotFound {
            path: match r.spec.path {
                Some(path) => path,
                None => match reference {
                    Some(reference) => reference,
                    None => Seq::empty(),
                },
            },
            full: match r.spec.full {
                Some(full) => full,
                None => Seq::empty(),
            },
            searchstr: joined(reported_search(r), newline()),
        }
    } else {
        let full = spec_full_path(r.spec);
        let parents = spec_parents(inherited, source);
        if parents.contains(full) {
            let first = first_at(parents, full);
            DirectiveView::Cycle {
                path: full,
                cycle: joined(parents.subrange(first, parents.len() as int).push(full), arrow()),
            }
        } else if parents.len() >= max_depth {
            DirectiveView::TooDeep { path: full, max: max_depth }
        } else {
            DirectiveView::Load {
                fullpath: full,
                kind: r.spec.kind,
                parents,
                target: if parents.len() == 0 {
                    top()
                } else {
                    parents.last()
                },
            }
        }
    }
}

/// The first index at which `parents` holds `full`.
fn first_index(parents: &Vec<String>, full: &str) -> (r: Option<usize>)
    ensures
        match r {
            Some(i) => i < parents.len() && parents.deep_view()[i as int] == full@ && forall|j: int|
                0 <= j < i ==> parents.deep_view()[j] != full@,
            None => !parents.deep_view().contains(full@),
        },
{
    let mut i: usize = 0;
    while i < parents.len()
        invariant
            i <= parents.len(),
            forall|j: int| 0 <= j < i ==> parents.deep_view()[j] != full@,
        decreases parents.len() - i,
    {
        if str_eq(parents[i].as_str(), full) {
            return Some(i);
        }
        i = i + 1;
    }
    proof {
        if parents.deep_view().contains(full@) {
            let k = choose|k: int| 0 <= k < parents.len() && parents.deep_view()[k] == full@;
            assert(parents.deep_view()[k] != full@);
        }
    }
    None
}

/// A copy of `v`.
pub fn copy_texts(v: &Vec<String>) -> (r: Vec<String>)
    ensures
        r.deep_view() == v.deep_view(),
{
    let mut r: Vec<String> = Vec::new();
    let mut i: usize = 0;
    while i < v.len()
        invariant
            i <= v.len(),
            r.deep_view() == v.deep_view().take(i as int),
        decreases v.len() - i,
    {
        push_string(&mut r, v[i].clone());
        assert(v.deep_view().take(i + 1) =~= v.deep_view().take(i as int).push(
            v.deep_view()[i as int],
        ));
        i = i + 1;
    }
    assert(v.deep_view().take(i as int) =~= v.deep_view());
    r
}

/// The report for a resolution that found nothing.
fn missing_outcome(resolution: &Resolution, reference: Option<&str>) -> (d: Directive)
    requires
        !resolution.found,
    ensures
        d@ == spec_directive(
            resolution@,
            match reference {
                Some(r) => Some(r@),
                None => None,
            },
            Seq::empty(),
            None,
            0,
        ),
{
    let search = if resolution.search.len() == 0 {
        let mut one: Vec<String> = Vec::new();
        match &resolution.spec.full {
            Some(full) => push_string(&mut one, full.clone()),
            None => {},
        }
        one
    } else {
        copy_texts(&resolution.search)
    };
    assert(search.deep_view() =~= reported_search(resolution@));
    let path = match &resolution.spec.path {
        Some(path) => path.clone(),
        None => match reference {
            Some(reference) => String::from_str(reference),
            None => String::new(),
        },
    };
    let full = match &resolution.spec.full {
        Some(full) => full.clone(),
        None => String::new(),
    };
    proof {
        reveal_strlit("\n");
        assert("\n"@ =~= newline());
    }
    let searchstr = join_texts(&search, "\n");
    Directive::NotFound { path, full, searchstr }
}

/// The loop report: `parents` from `index` on, then `fullpath`, linked by
/// arrows.
fn cycle_text(parents: &Vec<String>, index: usize, fullpath: &String) -> (r: String)
    requires
        index <= parents.len(),
    ensures
        r@ == joined(
            parents.deep_view().subrange(index as int, parents.len() as int).push(fullpath@),
            arrow(),
        ),
{
    let ghost chain = parents.deep_view();
    let mut cycle: Vec<String> = Vec::new();
    let mut j: usize = index;
    while j < parents.len()
        invariant
            index <= j <= parents.len(),
            chain == parents.deep_view(),
            cycle.deep_view() == chain.subrange(index as int, j as int),
        decreases parents.len() - j,
    {
        push_string(&mut cycle, parents[j].clone());
        assert(chain.subrange(index as int, j + 1) =~= chain.subrange(index as int, j as int).push(
            chain[j as int],
        ));
        j = j + 1;
    }
    push_string(&mut cycle, fullpath.clone());
    proof {
        reveal_strlit(" -> ");
        assert(" -> "@ =~= arrow());
    }
    join_texts(&cycle, " -> ")
}

/// Decide what the directive for `reference` does with its resolution.
///
/// `inherited` is the ancestor chain of the source holding the
/// reference, and `source_path` that source's own path; the top-level
/// document has neither.
pub fn directive_outcome(
    resolution: &Resolution,
    reference: Option<&str>,
    inherited: &Vec<String>,
    source_path: Option<&str>,
    max_depth: usize,
) -> (d: Directive)
    ensures
        d@ == spec_directive(
            resolution@,
            match reference {
                Some(r) => Some(r@),
                None => None,
            },
            inherited.deep_view(),
            match source_path {
                Some(p) => Some(p@),
                None => None,
            },
            max_depth as nat,
        ),
{
    let ghost src = match source_path {
        Some(p) => Some(p@),
        None => None::<Seq<char>>,
    };
    if !resolution.found {
        return missing_outcome(resolution, reference);
    }
    let fullpath = resolution.full_path();
    let mut parents = copy_texts(inherited);
    match source_path {
        Some(path) => push_string(&mut parents, String::from_str(path)),
        None => {},
    }
    let ghost chain = parents.deep_view();
    assert(chain == spec_parents(inherited.deep_view(), src));
    match first_index(&parents, fullpath.as_str()) {
        Some(index) => {
            proof {
                let first = first_at(chain, fullpath@);
                assert(chain.contains(fullpath@));
                assert(chain[index as int] == fullpath@);
                if first < index {
                    assert(chain[first] != fullpath@);
                }
                if first > index {
                    assert(chain[index as int] != fullpath@);
                }
                assert(first == index);
            }
            let text = cycle_text(&parents, index, &fullpath);
            Directive::Cycle { path: fullpath, cycle: text }
        },
        None => {
            if parents.len() >= max_depth {
                return Directive::TooDeep { path: fullpath, max: max_depth };
            }
            let target = if parents.len() == 0 {
                proof {
                    reveal_strlit("\0TOP");
                    assert("\0TOP"@ =~= top());
                }
                String::from_str(TOP)
            } else {
                parents[parents.len() - 1].clone()
            };
            let kind = resolution.spec.kind.clone();
            Directive::Load { fullpath, kind, parents, target }
        },
    }
}

/// The code a failed load is re-raised under: the nested code, or
/// `unexpected` when the nested failure carried none.
pub fn reraised_code(code: &str) -> (r: String)
    ensures
        r@ == (if code@.len() == 0 {
            seq!['u', 'n', 'e', 'x', 'p', 'e', 'c', 't', 'e', 'd']
        } else {
            code@
        }),
{
    if code.is_empty() {
        proof {
            reveal_strlit("unexpected");
        }
        let r = String::from_str("unexpected");
        assert(r@ =~= seq!['u', 'n', 'e', 'x', 'p', 'e', 'c', 't', 'e', 'd']);
        r
    } else {
        String::from_str(code)
    }
}

/// The first appearance of a source that is among `parents` is where it
/// stands, and no earlier entry is that source: a cycle report begins and
/// ends at the source that closes the loop.
pub proof fn law_cycle_report_starts_at_the_first_appearance(parents: Seq<Seq<char>>, full: Seq<char>)
    requires
        parents.contains(full),
    ensures
        0 <= first_at(parents, full) < parents.len(),
        parents[first_at(parents, full)] == full,
        forall|j: int| 0 <= j < first_at(parents, full) ==> parents[j] != full,
        parents.subrange(first_at(parents, full), parents.len() as int).push(full)[0] == full,
        parents.subrange(first_at(parents, full), parents.len() as int).push(full).last() == full,
{
    parents.index_of_first_ensures(full);
    match parents.index_of_first(full) {
        Some(i) => {
            assert(0 <= i < parents.len() && parents[i] == full && forall|j: int|
                0 <= j < i ==> parents[j] != full);
        },
        None => {},
    }
}

/// A missing source is always reported as missing, and a found one never
/// is.
pub proof fn law_missing_exactly_when_not_found(
    r: ResolutionView,
    reference: Option<Seq<char>>,
    inherited: Seq<Seq<char>>,
    source: Option<Seq<char>>,
    max_depth: nat,
)
    ensures
        (spec_directive(r, reference, inherited, source, max_depth) is NotFound) <==> !r.found,
{
}

/// A found source is refused as a cycle exactly when it is one of its own
/// ancestors. The check is against the ancestor chain alone, so a source
/// reached again along another branch, a diamond, is loaded, not refused.
pub proof fn law_cycle_exactly_when_an_ancestor(
    r: ResolutionView,
    reference: Option<Seq<char>>,
    inherited: Seq<Seq<char>>,
    source: Option<Seq<char>>,
    max_depth: nat,
)
    requires
        r.found,
    ensures
        (spec_directive(r, reference, inherited, source, max_depth) is Cycle) <==> spec_parents(
            inherited,
            source,
        ).contains(spec_full_path(r.spec)),
{
}

/// Every load extends the ancestor chain by its own source without
/// repeating one and without passing the cap, so the chain that the
/// loaded source's own references see holds no source twice and is at
/// most `max_depth` long: a document can neither loop nor nest without
/// bound.
pub proof fn law_loads_keep_the_chain_acyclic_and_bounded(
    r: ResolutionView,
    reference: Option<Seq<char>>,
    inherited: Seq<Seq<char>>,
    source: Option<Seq<char>>,
    max_depth: nat,
)
    requires
        spec_parents(inherited, source).no_duplicates(),
    ensures
        spec_directive(r, reference, inherited, source, max_depth) matches DirectiveView::Load {
            fullpath,
            parents,
            ..
        } ==> {
            &&& parents == spec_parents(inherited, source)
            &&& parents.push(fullpath).no_duplicates()
            &&& parents.push(fullpath).len() <= max_depth
        },
{
    let d = spec_directive(r, reference, inherited, source, max_depth);
    if let DirectiveView::Load { fullpath, parents, .. } = d {
        let chain = parents.push(fullpath);
        assert(!parents.contains(fullpath));
        assert forall|i: int, j: int|
            0 <= i < chain.len() && 0 <= j < chain.len() && i != j implies chain[i] != chain[j] by {
            if i < parents.len() && j < parents.len() {
                assert(chain[i] == parents[i]);
                assert(chain[j] == parents[j]);
            } else if i == parents.len() {
                assert(chain[j] == parents[j]);
            } else {
                assert(chain[i] == parents[i]);
            }
        }
    }
}

/// A load's dependency target is the source holding the reference, or
/// [`TOP`] for the document itself.
pub proof fn law_load_target_is_the_holder(
    r: ResolutionView,
    reference: Option<Seq<char>>,
    inherited: Seq<Seq<char>>,
    source: Option<Seq<char>>,
    max_depth: nat,
)
    ensures
        spec_directive(r, reference, inherited, source, max_depth) matches DirectiveView::Load {
            target,
            ..
        } ==> target == (match source {
            Some(holder) => holder,
            None => if inherited.len() == 0 {
                top()
            } else {
                inherited.last()
            },
        }),
{
}

/// A load is processed as the kind of what was found, not of the
/// reference as written: its kind is the resolution's, and for a
/// resolution that names the kind of its full path, as every resolver's
/// does, it is the extension of the loaded path's last segment.
pub proof fn law_load_kind_is_the_found_kind(
    r: ResolutionView,
    reference: Option<Seq<char>>,
    inherited: Seq<Seq<char>>,
    source: Option<Seq<char>>,
    max_depth: nat,
)
    ensures
        spec_directive(r, reference, inherited, source, max_depth) matches DirectiveView::Load {
            fullpath,
            kind,
            ..
        } ==> {
            &&& kind == r.spec.kind
            &&& (r.spec.full is Some && r.spec.kind == spec_ext_kind(r.spec.full->0)) ==> {
                &&& fullpath == r.spec.full->0
                &&& kind == spec_ext_kind(fullpath)
            }
        },
{
}

/// A found source that is not its own ancestor is loaded while the chain
/// above it is shorter than `max_depth`, and refused as too deep once it
/// is not.
pub proof fn law_found_sources_load_within_the_depth(
    r: ResolutionView,
    reference: Option<Seq<char>>,
    inherited: Seq<Seq<char>>,
    source: Option<Seq<char>>,
    max_depth: nat,
)
    requires
        r.found,
        !spec_parents(inherited, source).contains(spec_full_path(r.spec)),
    ensures
        spec_parents(inherited, source).len() < max_depth ==> (spec_directive(
            r,
            reference,
            inherited,
            source,
            max_depth,
        ) matches DirectiveView::Load { fullpath, .. } && fullpath == spec_full_path(r.spec)),
        spec_parents(inherited, source).len() >= max_depth ==> spec_directive(
            r,
            reference,
            inherited,
            source,
            max_depth,
        ) is TooDeep,
{
}

} // verus!
