//! The per-kind processor table, and how a kind finds its processor.

use vstd::prelude::*;

use crate::paths::NONE;
use crate::text::str_eq;

verus! {

/// How one source kind becomes a value.
pub enum ProcessorEntry<P> {
    /// A processor.
    Call(P),
    /// Another kind's processor, by name. One level of aliasing: an alias
    /// naming an alias finds nothing.
    Alias(String),
}

/// An entry as it stands in the table's map.
pub enum EntryView<P> {
    Call(P),
    Alias(Seq<char>),
}

/// The view of one entry.
pub open spec fn entry_view<P>(entry: ProcessorEntry<P>) -> EntryView<P> {
    match entry {
        ProcessorEntry::Call(p) => EntryView::Call(p),
        ProcessorEntry::Alias(target) => EntryView::Alias(target@),
    }
}

/// The processor a table holds directly under `kind`, if it holds one.
pub open spec fn direct<P>(table: Map<Seq<char>, EntryView<P>>, kind: Seq<char>) -> Option<P> {
    if table.contains_key(kind) {
        match table[kind] {
            EntryView::Call(p) => Some(p),
            EntryView::Alias(_) => None,
        }
    } else {
        None
    }
}

/// The processor for `kind`: its own entry, or the entry its alias names
/// when that one is a processor; failing either, the entry for the empty
/// kind when that is a processor.
pub open spec fn spec_processor_for<P>(table: Map<Seq<char>, EntryView<P>>, kind: Seq<char>) -> Option<
    P,
> {
    let fallback = direct(table, Seq::empty());
    if table.contains_key(kind) {
        match table[kind] {
            EntryView::Call(p) => Some(p),
            EntryView::Alias(target) => match direct(table, target) {
                Some(p) => Some(p),
                None => fallback,
            },
        }
    } else {
        fallback
    }
}

/// Per-kind processors, in the order their kinds were first added. The
/// empty kind is the fallback.
pub struct ProcessorTable<P> {
    entries: Vec<(String, ProcessorEntry<P>)>,
}

impl<P> ProcessorTable<P> {
    /// The kinds, in the order they were first added.
    pub closed spec fn kinds(&self) -> Seq<Seq<char>> {
        self.entries@.map_values(|e: (String, ProcessorEntry<P>)| e.0@)
    }

    /// The table as a map from kind to entry.
    pub closed spec fn table(&self) -> Map<Seq<char>, EntryView<P>> {
        Map::new(
            |k: Seq<char>| self.kinds().contains(k),
            |k: Seq<char>| entry_view(self.entries@[self.kinds().index_of(k)].1),
        )
    }

    #[verifier::type_invariant]
    closed spec fn distinct_kinds(&self) -> bool {
        self.kinds().no_duplicates()
    }

    /// An empty table.
    pub fn new() -> (r: Self)
        ensures
            r.table() == Map::<Seq<char>, EntryView<P>>::empty(),
            r.kinds().len() == 0,
    {
        let r = ProcessorTable { entries: Vec::new() };
        assert(r.table() =~= Map::<Seq<char>, EntryView<P>>::empty());
        r
    }

    /// Where `kind` stands, if it is in the table.
    fn position(&self, kind: &str) -> (r: Option<usize>)
        ensures
            match r {
                Some(i) => i < self.kinds().len() && self.kinds()[i as int] == kind@,
                None => !self.kinds().contains(kind@),
            },
    {
        let mut i: usize = 0;
        while i < self.entries.len()
            invariant
                i <= self.entries.len(),
                self.kinds().len() == self.entries.len(),
                forall|j: int| 0 <= j < i ==> self.kinds()[j] != kind@,
            decreases self.entries.len() - i,
        {
            if str_eq(self.entries[i].0.as_str(), kind) {
                return Some(i);
            }
            i = i + 1;
        }
        None
    }

    proof fn lemma_table_at(&self, i: int)
        requires
            self.kinds().no_duplicates(),
            0 <= i < self.kinds().len(),
        ensures
            self.table().contains_key(self.kinds()[i]),
            self.table()[self.kinds()[i]] == entry_view(self.entries@[i].1),
    {
        let k = self.kinds().index_of(self.kinds()[i]);
        assert(self.kinds().contains(self.kinds()[i]));
        assert(self.kinds()[k] == self.kinds()[i]);
    }

    /// Put `entry` under `kind`: a new kind goes last, a kind already in
    /// the table keeps its place.
    pub fn insert(&mut self, kind: String, entry: ProcessorEntry<P>)
        ensures
            final(self).table() == old(self).table().insert(kind@, entry_view(entry)),
            old(self).kinds().contains(kind@) ==> final(self).kinds() == old(self).kinds(),
            !old(self).kinds().contains(kind@) ==> final(self).kinds() == old(self).kinds().push(
                kind@,
            ),
    {
        proof {
            use_type_invariant(&*self);
        }
        let ghost k = kind@;
        let ghost ev = entry_view(entry);
        let ghost old_kinds = self.kinds();
        let ghost old_table = self.table();
        let ghost old_entries = self.entries@;
        let mut entries: Vec<(String, ProcessorEntry<P>)> = Vec::new();
        match self.position(kind.as_str()) {
            Some(i) => {
                std::mem::swap(&mut entries, &mut self.entries);
                entries.set(i, (kind, entry));
                proof {
                    assert(entries@.map_values(|e: (String, ProcessorEntry<P>)| e.0@) =~= old_kinds);
                }
                self.entries = entries;
                proof {
                    assert(self.kinds() =~= old_kinds);
                    assert(self.table() =~= old_table.insert(k, ev)) by {
                        assert forall|q: Seq<char>| #[trigger] self.table().contains_key(q) implies self.table()[q]
                            == old_table.insert(k, ev)[q] by {
                            let j = self.kinds().index_of(q);
                            assert(self.kinds()[j] == q);
                            self.lemma_table_at(j);
                            if j != i {
                                assert(self.entries@[j] == old_entries[j]);
                                assert(old_kinds[j] == q);
                                assert(old_table[q] == entry_view(old_entries[j].1)) by {
                                    let j2 = old_kinds.index_of(q);
                                    assert(old_kinds[j2] == q);
                                }
                            }
                        }
                    }
                }
            },
            None => {
                std::mem::swap(&mut entries, &mut self.entries);
                entries.push((kind, entry));
                proof {
                    let ks = entries@.map_values(|e: (String, ProcessorEntry<P>)| e.0@);
                    assert(ks =~= old_kinds.push(k));
                    assert(ks.no_duplicates()) by {
                        assert forall|a: int, b: int|
                            0 <= a < ks.len() && 0 <= b < ks.len() && a != b implies ks[a]
                            != ks[b] by {
                            if a < old_kinds.len() && b < old_kinds.len() {
                                assert(ks[a] == old_kinds[a]);
                                assert(ks[b] == old_kinds[b]);
                            } else if a == old_kinds.len() {
                                assert(old_kinds.contains(ks[b]) ==> ks[b] != k);
                                assert(ks[b] == old_kinds[b]);
                            } else {
                                assert(ks[a] == old_kinds[a]);
                            }
                        }
                    }
                }
                self.entries = entries;
                proof {
                    assert(self.kinds() =~= old_kinds.push(k));
                    assert forall|q: Seq<char>| #[trigger] self.table().contains_key(q)
                        <==> old_table.insert(k, ev).contains_key(q) by {
                        if old_kinds.contains(q) {
                            let j = old_kinds.index_of(q);
                            assert(self.kinds()[j] == q);
                        }
                        if q == k {
                            assert(self.kinds()[old_kinds.len() as int] == k);
                        }
                        if self.kinds().contains(q) && q != k {
                            let j = self.kinds().index_of(q);
                            assert(old_kinds[j] == q);
                        }
                    }
                    assert(self.table() =~= old_table.insert(k, ev)) by {
                        assert forall|q: Seq<char>| #[trigger] self.table().contains_key(q) implies self.table()[q]
                            == old_table.insert(k, ev)[q] by {
                            let j = self.kinds().index_of(q);
                            assert(self.kinds()[j] == q);
                            self.lemma_table_at(j);
                            if j < old_kinds.len() {
                                assert(self.entries@[j] == old_entries[j]);
                                assert(old_kinds[j] == q);
                                assert(old_table[q] == entry_view(old_entries[j].1)) by {
                                    let j2 = old_kinds.index_of(q);
                                    assert(old_kinds[j2] == q);
                                }
                            }
                        }
                    }
                }
            },
        }
    }

    /// The entry under `kind`, if there is one.
    pub fn get(&self, kind: &str) -> (r: Option<&ProcessorEntry<P>>)
        ensures
            match r {
                Some(entry) => self.table().contains_key(kind@) && entry_view(*entry)
                    == self.table()[kind@],
                None => !self.table().contains_key(kind@),
            },
    {
        proof {
            use_type_invariant(self);
        }
        match self.position(kind) {
            Some(i) => {
                proof {
                    self.lemma_table_at(i as int);
                }
                Some(&self.entries[i].1)
            },
            None => None,
        }
    }

    /// The processor stored directly under `kind`.
    fn direct_for(&self, kind: &str) -> (r: Option<&P>)
        ensures
            match r {
                Some(p) => direct(self.table(), kind@) == Some(*p),
                None => direct(self.table(), kind@) is None,
            },
    {
        match self.get(kind) {
            Some(ProcessorEntry::Call(p)) => Some(p),
            _ => None,
        }
    }

    /// The processor for `kind`, resolving one level of aliasing and
    /// falling back to the entry for the empty kind.
    pub fn processor_for(&self, kind: &str) -> (r: Option<&P>)
        ensures
            match r {
                Some(p) => spec_processor_for(self.table(), kind@) == Some(*p),
                None => spec_processor_for(self.table(), kind@) is None,
            },
    {
        proof {
            reveal_strlit("");
            assert(NONE@ =~= Seq::<char>::empty());
        }
        let fallback = self.direct_for(NONE);
        match self.get(kind) {
            Some(ProcessorEntry::Call(p)) => Some(p),
            Some(ProcessorEntry::Alias(target)) => match self.direct_for(target.as_str()) {
                Some(p) => Some(p),
                None => fallback,
            },
            None => fallback,
        }
    }

    /// Every kind, in the order it was first added.
    pub fn kinds_in_order(&self) -> (r: Vec<&str>)
        ensures
            r.deep_view() == self.kinds(),
    {
        let mut r: Vec<&str> = Vec::new();
        let mut i: usize = 0;
        while i < self.entries.len()
            invariant
                i <= self.entries.len(),
                self.kinds().len() == self.entries.len(),
                r.deep_view() =~= self.kinds().take(i as int),
            decreases self.entries.len() - i,
        {
            let ghost before = r.deep_view();
            r.push(self.entries[i].0.as_str());
            assert(r.deep_view() =~= before.push(self.kinds()[i as int])) by {
                assert forall|j: int| 0 <= j < r.len() implies #[trigger] r.deep_view()[j]
                    == before.push(self.kinds()[i as int])[j] by {
                    if j < r.len() - 1 {
                        assert(r@[j] == r@.drop_last()[j]);
                    }
                }
            }
            assert(self.kinds().take(i + 1) =~= self.kinds().take(i as int).push(self.kinds()[i as int]));
            i = i + 1;
        }
        assert(self.kinds().take(i as int) =~= self.kinds());
        r
    }
}

/// An alias reaches a processor only in one step: a kind aliased to a
/// kind that is itself an alias gets the fallback, never the processor
/// at the end of the chain.
pub proof fn law_one_level_of_aliasing<P>(
    table: Map<Seq<char>, EntryView<P>>,
    kind: Seq<char>,
    middle: Seq<char>,
    last: Seq<char>,
)
    requires
        table.contains_key(kind),
        table[kind] == EntryView::<P>::Alias(middle),
        table.contains_key(middle),
        table[middle] == EntryView::<P>::Alias(last),
    ensures
        spec_processor_for(table, kind) == direct(table, Seq::empty()),
{
}

/// A kind with a processor of its own gets that processor, whatever else
/// the table holds.
pub proof fn law_own_processor_first<P>(table: Map<Seq<char>, EntryView<P>>, kind: Seq<char>, p: P)
    requires
        table.contains_key(kind),
        table[kind] == EntryView::Call(p),
    ensures
        spec_processor_for(table, kind) == Some(p),
{
}

} // verus!
