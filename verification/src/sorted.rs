//! A map from text keys to values that keeps its keys in code-point
//! order, which is the order a `BTreeMap<String, _>` iterates in.

use vstd::prelude::*;

verus! {

/// Code-point lexicographic order on character sequences: a proper
/// prefix comes first, otherwise the first differing character decides.
pub open spec fn text_lt(a: Seq<char>, b: Seq<char>) -> bool
    decreases a.len(),
{
    if a.len() == 0 {
        b.len() > 0
    } else if b.len() == 0 {
        false
    } else if a[0] != b[0] {
        (a[0] as int) < (b[0] as int)
    } else {
        text_lt(a.drop_first(), b.drop_first())
    }
}

pub proof fn lemma_text_lt_irreflexive(a: Seq<char>)
    ensures
        !text_lt(a, a),
    decreases a.len(),
{
    if a.len() > 0 {
        lemma_text_lt_irreflexive(a.drop_first());
    }
}

pub proof fn lemma_text_lt_transitive(a: Seq<char>, b: Seq<char>, c: Seq<char>)
    requires
        text_lt(a, b),
        text_lt(b, c),
    ensures
        text_lt(a, c),
    decreases a.len(),
{
    if a.len() > 0 && b.len() > 0 && c.len() > 0 {
        if a[0] == b[0] && b[0] == c[0] {
            lemma_text_lt_transitive(a.drop_first(), b.drop_first(), c.drop_first());
        }
    }
}

pub proof fn lemma_text_lt_total(a: Seq<char>, b: Seq<char>)
    ensures
        a == b || text_lt(a, b) || text_lt(b, a),
    decreases a.len(),
{
    if a.len() > 0 && b.len() > 0 {
        if a[0] == b[0] {
            lemma_text_lt_total(a.drop_first(), b.drop_first());
            if a.drop_first() == b.drop_first() {
                assert(a =~= seq![a[0]] + a.drop_first());
                assert(b =~= seq![b[0]] + b.drop_first());
            }
        } else {
            assert((a[0] as int) != (b[0] as int));
        }
    } else if a.len() == 0 && b.len() == 0 {
        assert(a =~= b);
    }
}

pub proof fn lemma_text_lt_asymmetric(a: Seq<char>, b: Seq<char>)
    requires
        text_lt(a, b),
    ensures
        !text_lt(b, a),
        a != b,
{
    if text_lt(b, a) {
        lemma_text_lt_transitive(a, b, a);
        lemma_text_lt_irreflexive(a);
    }
    if a == b {
        lemma_text_lt_irreflexive(a);
    }
}

/// Whether `keys` is strictly increasing.
pub open spec fn strictly_sorted(keys: Seq<Seq<char>>) -> bool {
    forall|i: int, j: int| 0 <= i < j < keys.len() ==> text_lt(#[trigger] keys[i], #[trigger] keys[j])
}

/// The result of comparing two texts.
#[derive(Clone, Copy, Debug, PartialEq, Eq)]
pub enum Order {
    Less,
    Equal,
    Greater,
}

/// Compare `a` with `b` in code-point order.
pub fn text_order(a: &str, b: &str) -> (r: Order)
    ensures
        r == Order::Less <==> text_lt(a@, b@),
        r == Order::Equal <==> a@ == b@,
        r == Order::Greater <==> text_lt(b@, a@),
{
    let x = crate::text::chars_of(a);
    let y = crate::text::chars_of(b);
    let mut i: usize = 0;
    proof {
        lemma_text_lt_total(a@, b@);
        if text_lt(a@, b@) {
            lemma_text_lt_asymmetric(a@, b@);
        }
        if text_lt(b@, a@) {
            lemma_text_lt_asymmetric(b@, a@);
        }
        assert(x@.skip(0) =~= x@);
        assert(y@.skip(0) =~= y@);
    }
    loop
        invariant
            x@ == a@,
            y@ == b@,
            i <= x.len(),
            i <= y.len(),
            x@.subrange(0, i as int) == y@.subrange(0, i as int),
            text_lt(a@, b@) == text_lt(x@.skip(i as int), y@.skip(i as int)),
            text_lt(b@, a@) == text_lt(y@.skip(i as int), x@.skip(i as int)),
            (a@ == b@) == (x@.skip(i as int) == y@.skip(i as int)),
        decreases x.len() - i,
    {
        let ghost xs = x@.skip(i as int);
        let ghost ys = y@.skip(i as int);
        if i == x.len() {
            if i == y.len() {
                assert(xs =~= ys);
                return Order::Equal;
            }
            assert(xs.len() == 0 && ys.len() > 0);
            assert(xs != ys);
            return Order::Less;
        }
        if i == y.len() {
            assert(xs != ys);
            return Order::Greater;
        }
        let cx = x[i];
        let cy = y[i];
        assert(xs[0] == cx && ys[0] == cy);
        if cx != cy {
            assert(xs != ys);
            if cx < cy {
                return Order::Less;
            } else {
                return Order::Greater;
            }
        }
        assert(xs.drop_first() =~= x@.skip(i + 1));
        assert(ys.drop_first() =~= y@.skip(i + 1));
        assert(x@.subrange(0, i + 1) =~= x@.subrange(0, i as int).push(cx));
        assert(y@.subrange(0, i + 1) =~= y@.subrange(0, i as int).push(cy));
        assert((xs == ys) == (xs.drop_first() == ys.drop_first())) by {
            if xs.drop_first() == ys.drop_first() {
                assert(xs =~= seq![cx] + xs.drop_first());
                assert(ys =~= seq![cy] + ys.drop_first());
            }
        }
        i = i + 1;
    }
}

/// A map from text keys to values, kept in code-point order of its keys
/// with no key twice.
#[derive(Debug)]
pub struct SortedMap<V> {
    entries: Vec<(String, V)>,
}

impl<V> SortedMap<V> {
    /// The keys, in order.
    pub closed spec fn keys(&self) -> Seq<Seq<char>> {
        self.entries@.map_values(|e: (String, V)| e.0@)
    }

    /// The values, in key order.
    pub closed spec fn values(&self) -> Seq<V> {
        self.entries@.map_values(|e: (String, V)| e.1)
    }

    #[verifier::type_invariant]
    closed spec fn well_sorted(&self) -> bool {
        strictly_sorted(self.keys())
    }

    /// The map this holds.
    pub open spec fn as_map(&self) -> Map<Seq<char>, V> {
        Map::new(
            |k: Seq<char>| self.keys().contains(k),
            |k: Seq<char>| self.values()[self.keys().index_of(k)],
        )
    }

    proof fn lemma_sorted(&self)
        requires
            strictly_sorted(self.keys()),
        ensures
            strictly_sorted(self.keys()),
            self.keys().no_duplicates(),
            self.keys().len() == self.values().len(),
            forall|i: int|
                0 <= i < self.keys().len() ==> #[trigger] self.as_map()[self.keys()[i]]
                    == self.values()[i],
    {
        assert(self.keys().no_duplicates()) by {
            assert forall|i: int, j: int|
                0 <= i < self.keys().len() && 0 <= j < self.keys().len() && i != j implies self.keys()[i]
                != self.keys()[j] by {
                if i < j {
                    lemma_text_lt_asymmetric(self.keys()[i], self.keys()[j]);
                } else {
                    lemma_text_lt_asymmetric(self.keys()[j], self.keys()[i]);
                }
            }
        }
        assert forall|i: int| 0 <= i < self.keys().len() implies #[trigger] self.as_map()[self.keys()[i]]
            == self.values()[i] by {
            self.keys().index_of_first_ensures(self.keys()[i]);
            let k = self.keys().index_of(self.keys()[i]);
            assert(self.keys()[k] == self.keys()[i]);
        }
    }

    /// An empty map.
    pub fn new() -> (m: Self)
        ensures
            m.keys().len() == 0,
            m.as_map() == Map::<Seq<char>, V>::empty(),
    {
        let m = SortedMap { entries: Vec::new() };
        assert(m.as_map() =~= Map::<Seq<char>, V>::empty());
        m
    }

    /// How many keys this holds.
    ///
    /// Its contract also carries the map's standing facts: the keys are
    /// strictly increasing, and the map is exactly the keys paired with
    /// the values.
    pub fn len(&self) -> (n: usize)
        ensures
            n == self.keys().len(),
            n == self.values().len(),
            strictly_sorted(self.keys()),
            self.keys().no_duplicates(),
            self.as_map().dom() == self.keys().to_set(),
            forall|i: int|
                0 <= i < self.keys().len() ==> #[trigger] self.as_map()[self.keys()[i]]
                    == self.values()[i],
    {
        proof {
            use_type_invariant(self);
            self.lemma_sorted();
            assert(self.as_map().dom() =~= self.keys().to_set());
        }
        self.entries.len()
    }

    /// Every key, in order.
    pub fn keys_in_order(&self) -> (ks: Vec<&str>)
        ensures
            ks.deep_view() == self.keys(),
    {
        let mut ks: Vec<&str> = Vec::new();
        let mut i: usize = 0;
        while i < self.entries.len()
            invariant
                i <= self.entries.len(),
                self.keys().len() == self.entries.len(),
                ks.deep_view() =~= self.keys().take(i as int),
            decreases self.entries.len() - i,
        {
            let ghost before = ks.deep_view();
            ks.push(self.entries[i].0.as_str());
            assert(ks.deep_view() =~= before.push(self.keys()[i as int])) by {
                assert forall|j: int| 0 <= j < ks.len() implies #[trigger] ks.deep_view()[j]
                    == before.push(self.keys()[i as int])[j] by {
                    if j < ks.len() - 1 {
                        assert(ks@[j] == ks@.drop_last()[j]);
                    }
                }
            }
            assert(self.keys().take(i + 1) =~= self.keys().take(i as int).push(self.keys()[i as int]));
            i = i + 1;
        }
        assert(self.keys().take(i as int) =~= self.keys());
        ks
    }

    /// The key at `index`.
    pub fn key_at(&self, index: usize) -> (k: &String)
        requires
            index < self.keys().len(),
        ensures
            k@ == self.keys()[index as int],
    {
        &self.entries[index].0
    }

    /// The value at `index`.
    pub fn value_at(&self, index: usize) -> (v: &V)
        requires
            index < self.keys().len(),
        ensures
            *v == self.values()[index as int],
    {
        &self.entries[index].1
    }

    /// Where `key` stands, or where it would be inserted.
    pub fn locate(&self, key: &str) -> (r: Result<usize, usize>)
        ensures
            match r {
                Ok(i) => i < self.keys().len() && self.keys()[i as int] == key@,
                Err(i) => i <= self.keys().len() && !self.keys().contains(key@) && (forall|j: int|
                    0 <= j < i ==> text_lt(#[trigger] self.keys()[j], key@)) && (forall|j: int|
                    i <= j < self.keys().len() ==> text_lt(key@, #[trigger] self.keys()[j])),
            },
    {
        proof {
            use_type_invariant(self);
        }
        let mut i: usize = 0;
        while i < self.entries.len()
            invariant
                i <= self.keys().len(),
                self.keys().len() == self.entries.len(),
                strictly_sorted(self.keys()),
                forall|j: int| 0 <= j < i ==> text_lt(#[trigger] self.keys()[j], key@),
            decreases self.entries.len() - i,
        {
            match text_order(self.entries[i].0.as_str(), key) {
                Order::Less => {},
                Order::Equal => {
                    return Ok(i);
                },
                Order::Greater => {
                    assert forall|j: int| i <= j < self.keys().len() implies text_lt(
                        key@,
                        #[trigger] self.keys()[j],
                    ) by {
                        if j > i {
                            lemma_text_lt_transitive(key@, self.keys()[i as int], self.keys()[j]);
                        }
                    }
                    proof {
                        self.lemma_absent(key@, i as int);
                    }
                    return Err(i);
                },
            }
            i = i + 1;
        }
        proof {
            self.lemma_absent(key@, i as int);
        }
        Err(i)
    }

    proof fn lemma_absent(&self, key: Seq<char>, i: int)
        requires
            0 <= i <= self.keys().len(),
            forall|j: int| 0 <= j < i ==> text_lt(#[trigger] self.keys()[j], key),
            forall|j: int| i <= j < self.keys().len() ==> text_lt(key, #[trigger] self.keys()[j]),
        ensures
            !self.keys().contains(key),
    {
        if self.keys().contains(key) {
            let j = self.keys().index_of(key);
            if j < i {
                lemma_text_lt_irreflexive(key);
            } else {
                lemma_text_lt_irreflexive(key);
            }
        }
    }

    /// The value under `key`, if there is one.
    pub fn get(&self, key: &str) -> (r: Option<&V>)
        ensures
            match r {
                Some(v) => self.as_map().contains_key(key@) && *v == self.as_map()[key@],
                None => !self.as_map().contains_key(key@),
            },
    {
        proof {
            use_type_invariant(self);
            self.lemma_sorted();
        }
        match self.locate(key) {
            Ok(i) => Some(&self.entries[i].1),
            Err(_) => None,
        }
    }

    /// Put `value` under `key`, replacing any value already there.
    pub fn insert(&mut self, key: String, value: V)
        ensures
            final(self).as_map() == old(self).as_map().insert(key@, value),
    {
        proof {
            use_type_invariant(&*self);
            self.lemma_sorted();
        }
        let ghost old_keys = self.keys();
        let ghost old_values = self.values();
        let ghost old_map = self.as_map();
        match self.locate(key.as_str()) {
            Ok(i) => {
                let ghost k = key@;
                let mut entries: Vec<(String, V)> = Vec::new();
                std::mem::swap(&mut entries, &mut self.entries);
                entries.set(i, (key, value));
                proof {
                    assert(entries@.map_values(|e: (String, V)| e.0@) =~= old_keys);
                }
                self.entries = entries;
                proof {
                    assert(self.keys() =~= old_keys);
                    assert(self.values() =~= old_values.update(i as int, value));
                    assert(strictly_sorted(self.keys()));
                    self.lemma_sorted();
                    assert(self.as_map() =~= old_map.insert(k, value)) by {
                        assert forall|q: Seq<char>| #[trigger] self.as_map().contains_key(q) implies self.as_map()[q]
                            == old_map.insert(k, value)[q] by {
                            let j = self.keys().index_of(q);
                            self.keys().index_of_first_ensures(q);
                            assert(self.as_map()[self.keys()[j]] == self.values()[j]);
                            if j != i {
                                assert(old_map[old_keys[j]] == old_values[j]);
                            }
                        }
                    }
                }
            },
            Err(i) => {
                let ghost k = key@;
                let mut entries: Vec<(String, V)> = Vec::new();
                std::mem::swap(&mut entries, &mut self.entries);
                entries.insert(i, (key, value));
                proof {
                    let ks = entries@.map_values(|e: (String, V)| e.0@);
                    assert(ks =~= old_keys.insert(i as int, k));
                    assert(strictly_sorted(ks)) by {
                        assert forall|a: int, b: int|
                            0 <= a < b < ks.len() implies text_lt(
                            #[trigger] ks[a],
                            #[trigger] ks[b],
                        ) by {
                            if a < i && b > i {
                                lemma_text_lt_transitive(ks[a], k, ks[b]);
                            }
                        }
                    }
                }
                self.entries = entries;
                proof {
                    assert(self.keys() =~= old_keys.insert(i as int, k));
                    assert(self.values() =~= old_values.insert(i as int, value));
                    assert(strictly_sorted(self.keys())) by {
                        assert forall|a: int, b: int|
                            0 <= a < b < self.keys().len() implies text_lt(
                            #[trigger] self.keys()[a],
                            #[trigger] self.keys()[b],
                        ) by {
                            if a < i && b > i {
                                lemma_text_lt_transitive(self.keys()[a], k, self.keys()[b]);
                            }
                        }
                    }
                }
                proof {
                    self.lemma_sorted();
                    assert(self.as_map() =~= old_map.insert(k, value)) by {
                        assert forall|q: Seq<char>| #[trigger] self.as_map().contains_key(q) <==> old_map.insert(k, value).contains_key(q) by {
                            if q == k {
                                assert(self.keys()[i as int] == k);
                            }
                            if old_keys.contains(q) {
                                let j = old_keys.index_of(q);
                                if j < i {
                                    assert(self.keys()[j] == q);
                                } else {
                                    assert(self.keys()[j + 1] == q);
                                }
                            }
                            if self.keys().contains(q) && q != k {
                                let j = self.keys().index_of(q);
                                if j < i {
                                    assert(old_keys[j] == q);
                                } else {
                                    assert(old_keys[j - 1] == q);
                                }
                            }
                        }
                        assert forall|q: Seq<char>| #[trigger] self.as_map().contains_key(q) implies self.as_map()[q]
                            == old_map.insert(k, value)[q] by {
                            let j = self.keys().index_of(q);
                            self.keys().index_of_first_ensures(q);
                            assert(self.as_map()[self.keys()[j]] == self.values()[j]);
                            if j < i {
                                assert(old_map[old_keys[j]] == old_values[j]);
                            } else if j > i {
                                assert(old_map[old_keys[j - 1]] == old_values[j - 1]);
                            }
                        }
                    }
                }
            },
        }
    }

    /// Take the value under `key` out of the map, if there is one.
    pub fn remove(&mut self, key: &str) -> (r: Option<V>)
        ensures
            final(self).as_map() == old(self).as_map().remove(key@),
            r == (if old(self).as_map().contains_key(key@) {
                Some(old(self).as_map()[key@])
            } else {
                None::<V>
            }),
    {
        proof {
            use_type_invariant(&*self);
            self.lemma_sorted();
        }
        let ghost old_keys = self.keys();
        let ghost old_values = self.values();
        let ghost old_map = self.as_map();
        match self.locate(key) {
            Ok(i) => {
                let ghost k = key@;
                let mut entries: Vec<(String, V)> = Vec::new();
                std::mem::swap(&mut entries, &mut self.entries);
                let removed = entries.remove(i);
                proof {
                    let ks = entries@.map_values(|e: (String, V)| e.0@);
                    assert(ks =~= old_keys.remove(i as int));
                    assert(strictly_sorted(ks)) by {
                        assert forall|a: int, b: int|
                            0 <= a < b < ks.len() implies text_lt(
                            #[trigger] ks[a],
                            #[trigger] ks[b],
                        ) by {
                            if a < i && b >= i {
                                assert(ks[b] == old_keys[b + 1]);
                            }
                            if a >= i {
                                assert(ks[a] == old_keys[a + 1]);
                                assert(ks[b] == old_keys[b + 1]);
                            }
                        }
                    }
                }
                self.entries = entries;
                proof {
                    assert(self.keys() =~= old_keys.remove(i as int));
                    assert(self.values() =~= old_values.remove(i as int));
                    self.lemma_sorted();
                    assert(removed.1 == old_map[k]);
                    assert(self.as_map() =~= old_map.remove(k)) by {
                        assert forall|q: Seq<char>| #[trigger] self.as_map().contains_key(q) <==> old_map.remove(k).contains_key(q) by {
                            if old_keys.contains(q) && q != k {
                                let j = old_keys.index_of(q);
                                if j < i {
                                    assert(self.keys()[j] == q);
                                } else {
                                    assert(j != i);
                                    assert(self.keys()[j - 1] == q);
                                }
                            }
                            if self.keys().contains(q) {
                                let j = self.keys().index_of(q);
                                if j < i {
                                    assert(old_keys[j] == q);
                                } else {
                                    assert(old_keys[j + 1] == q);
                                }
                                if q == k {
                                    lemma_text_lt_irreflexive(k);
                                }
                            }
                        }
                        assert forall|q: Seq<char>| #[trigger] self.as_map().contains_key(q) implies self.as_map()[q]
                            == old_map.remove(k)[q] by {
                            let j = self.keys().index_of(q);
                            self.keys().index_of_first_ensures(q);
                            assert(self.as_map()[self.keys()[j]] == self.values()[j]);
                            if j < i {
                                assert(old_map[old_keys[j]] == old_values[j]);
                            } else {
                                assert(old_map[old_keys[j + 1]] == old_values[j + 1]);
                            }
                        }
                    }
                }
                Some(removed.1)
            },
            Err(_) => {
                assert(old_map.remove(key@) =~= old_map);
                None
            },
        }
    }
}

} // verus!
