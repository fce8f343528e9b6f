//! The dependency tree a parse records: which target pulled in which
//! source, and when.

use vstd::prelude::*;

use crate::sorted::{strictly_sorted, SortedMap};

verus! {

/// One record that target `tar` pulled in source `src` during a parse.
#[derive(Clone, Debug, PartialEq, Eq)]
pub struct Dependency {
    /// The target that depends on the source; [`crate::directive::TOP`]
    /// at the top level.
    pub tar: String,
    /// The source the target depends on.
    pub src: String,
    /// When the source resolved, in Unix milliseconds.
    pub wen: u64,
}

/// The mathematical content of a [`Dependency`].
pub struct DependencyView {
    pub tar: Seq<char>,
    pub src: Seq<char>,
    pub wen: u64,
}

impl View for Dependency {
    type V = DependencyView;

    open spec fn view(&self) -> DependencyView {
        DependencyView { tar: self.tar@, src: self.src@, wen: self.wen }
    }
}

/// The sources recorded for one target, by source path.
pub open spec fn sources_view(sources: SortedMap<Dependency>) -> Map<Seq<char>, DependencyView> {
    sources.as_map().map_values(|d: Dependency| d@)
}

/// A flattened dependency tree, keyed by target full path and then by
/// source full path.
#[derive(Debug)]
pub struct DependencyMap {
    targets: SortedMap<SortedMap<Dependency>>,
}

impl View for DependencyMap {
    type V = Map<Seq<char>, Map<Seq<char>, DependencyView>>;

    closed spec fn view(&self) -> Map<Seq<char>, Map<Seq<char>, DependencyView>> {
        self.targets.as_map().map_values(|sources: SortedMap<Dependency>| sources_view(sources))
    }
}

/// The tree `deps` once `target` is recorded as pulling in `src` at
/// `wen`: that target's sources gain, or replace, the record for `src`,
/// and nothing else changes.
pub open spec fn recorded(
    deps: Map<Seq<char>, Map<Seq<char>, DependencyView>>,
    target: Seq<char>,
    src: Seq<char>,
    wen: u64,
) -> Map<Seq<char>, Map<Seq<char>, DependencyView>> {
    let sources = if deps.contains_key(target) {
        deps[target]
    } else {
        Map::empty()
    };
    deps.insert(target, sources.insert(src, DependencyView { tar: target, src, wen }))
}

impl DependencyMap {
    /// An empty tree.
    pub fn new() -> (r: Self)
        ensures
            r@ == Map::<Seq<char>, Map<Seq<char>, DependencyView>>::empty(),
    {
        let r = DependencyMap { targets: SortedMap::new() };
        assert(r@ =~= Map::<Seq<char>, Map<Seq<char>, DependencyView>>::empty());
        r
    }

    /// Record that `target` pulled in `src` at `wen`.
    pub fn record(&mut self, target: &str, src: &str, wen: u64)
        ensures
            final(self)@ == recorded(old(self)@, target@, src@, wen),
    {
        let ghost before = self.targets.as_map();
        let mut sources = match self.targets.remove(target) {
            Some(sources) => sources,
            None => SortedMap::new(),
        };
        let ghost prior = sources_view(sources);
        assert(prior == (if old(self)@.contains_key(target@) {
            old(self)@[target@]
        } else {
            Map::empty()
        }));
        let dependency = Dependency {
            tar: String::from_str(target),
            src: String::from_str(src),
            wen,
        };
        let ghost d = dependency;
        sources.insert(String::from_str(src), dependency);
        assert(sources_view(sources) =~= prior.insert(
            src@,
            DependencyView { tar: target@, src: src@, wen },
        ));
        let ghost inner = sources;
        self.targets.insert(String::from_str(target), sources);
        assert(self.targets.as_map() == before.remove(target@).insert(target@, inner));
        assert(self@ =~= recorded(old(self)@, target@, src@, wen));
    }

    /// The record of `target` pulling in `src`, if there is one.
    pub fn get(&self, target: &str, src: &str) -> (r: Option<&Dependency>)
        ensures
            match r {
                Some(d) => self@.contains_key(target@) && self@[target@].contains_key(src@)
                    && d@ == self@[target@][src@],
                None => !(self@.contains_key(target@) && self@[target@].contains_key(src@)),
            },
    {
        match self.targets.get(target) {
            Some(sources) => sources.get(src),
            None => None,
        }
    }

    /// Every target, in sorted order.
    pub fn targets(&self) -> (r: Vec<&str>)
        ensures
            r.deep_view().to_set() == self@.dom(),
    {
        let n = self.targets.len();
        assert(self@.dom() =~= self.targets.as_map().dom());
        self.targets.keys_in_order()
    }

    /// Every source recorded for `target`, in sorted order; none for a
    /// target with no record.
    pub fn sources(&self, target: &str) -> (r: Vec<&str>)
        ensures
            self@.contains_key(target@) ==> r.deep_view().to_set() == self@[target@].dom(),
            !self@.contains_key(target@) ==> r.len() == 0,
            strictly_sorted(r.deep_view()),
    {
        match self.targets.get(target) {
            Some(sources) => {
                let n = sources.len();
                assert(sources_view(*sources).dom() =~= sources.as_map().dom());
                sources.keys_in_order()
            },
            None => {
                let r: Vec<&str> = Vec::new();
                assert(r.deep_view() =~= Seq::<Seq<char>>::empty());
                r
            },
        }
    }
}

/// Recording a dependency and then reading it back gives the record just
/// made, whatever the tree held before.
pub proof fn law_record_then_read(
    deps: Map<Seq<char>, Map<Seq<char>, DependencyView>>,
    target: Seq<char>,
    src: Seq<char>,
    wen: u64,
)
    ensures
        recorded(deps, target, src, wen)[target][src] == (DependencyView { tar: target, src, wen }),
        forall|other: Seq<char>|
            #![trigger deps.contains_key(other)]
            other != target && deps.contains_key(other) ==> recorded(
                deps,
                target,
                src,
                wen,
            )[other] == deps[other],
        forall|s: Seq<char>|
            #![trigger deps[target].contains_key(s)]
            s != src && deps.contains_key(target) && deps[target].contains_key(s) ==> recorded(
                deps,
                target,
                src,
                wen,
            )[target][s] == deps[target][s],
{
}

} // verus!
