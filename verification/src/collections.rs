//! Maps and sets keyed by texts, kept in the order of texts.

use vstd::prelude::*;

use crate::text::{
    lemma_text_less_irreflexive, lemma_text_less_total, lemma_text_less_transitive, text_before,
};
use crate::views::Duplicate;

verus! {

/// Whether the texts are strictly increasing in the order of texts.
pub open spec fn increasing(s: Seq<Seq<char>>) -> bool {
    forall|i: int, j: int|
        0 <= i < j < s.len() ==> crate::text::text_less(#[trigger] s[i], #[trigger] s[j])
}

/// The texts of a set in increasing order.
pub open spec fn ordered(s: Set<Seq<char>>) -> Seq<Seq<char>> {
    choose|q: Seq<Seq<char>>| #[trigger] increasing(q) && q.to_set() == s
}

/// An increasing sequence has no text twice.
pub proof fn lemma_increasing_distinct(s: Seq<Seq<char>>)
    requires
        increasing(s),
    ensures
        s.no_duplicates(),
{
    assert forall|i: int, j: int| 0 <= i < s.len() && 0 <= j < s.len() && i != j implies s[i]
        != s[j] by {
        lemma_text_less_irreflexive(s[i]);
        if i < j {
            assert(crate::text::text_less(s[i], s[j]));
        } else {
            assert(crate::text::text_less(s[j], s[i]));
        }
    }
}

/// Two increasing sequences with the same texts are the same.
pub proof fn lemma_increasing_unique(a: Seq<Seq<char>>, b: Seq<Seq<char>>)
    requires
        increasing(a),
        increasing(b),
        a.to_set() == b.to_set(),
    ensures
        a == b,
    decreases a.len(),
{
    assert(forall|x: Seq<char>| a.contains(x) <==> a.to_set().contains(x));
    assert(forall|x: Seq<char>| b.contains(x) <==> b.to_set().contains(x));
    if a.len() == 0 {
        if b.len() > 0 {
            assert(b.contains(b[0]));
            assert(a.contains(b[0]));
        }
        assert(a =~= b);
    } else if b.len() == 0 {
        assert(a.contains(a[0]));
        assert(b.contains(a[0]));
    } else {
        let la = a.last();
        let lb = b.last();
        assert(la == lb) by {
            assert(a.contains(la));
            assert(b.contains(la));
            assert(b.contains(lb));
            assert(a.contains(lb));
            let i = a.index_of(lb);
            let j = b.index_of(la);
            if i < a.len() - 1 && j < b.len() - 1 {
                assert(crate::text::text_less(a[i], a[a.len() - 1]));
                assert(crate::text::text_less(b[j], b[b.len() - 1]));
                lemma_text_less_total(la, lb);
            }
        }
        let a2 = a.drop_last();
        let b2 = b.drop_last();
        lemma_increasing_distinct(a);
        lemma_increasing_distinct(b);
        assert(increasing(a2));
        assert(increasing(b2));
        assert(a2.to_set() =~= b2.to_set()) by {
            assert forall|x: Seq<char>| a2.contains(x) implies b2.contains(x) by {
                let i = a2.index_of(x);
                assert(a[i] == x);
                assert(a.contains(x));
                assert(b.contains(x));
                let j = b.index_of(x);
                assert(a[a.len() - 1] != a[i]);
                assert(b2[j] == x);
            }
            assert forall|x: Seq<char>| b2.contains(x) implies a2.contains(x) by {
                let j = b2.index_of(x);
                assert(b[j] == x);
                assert(b.contains(x));
                assert(a.contains(x));
                let i = a.index_of(x);
                assert(b[b.len() - 1] != b[j]);
                assert(a2[i] == x);
            }
        }
        lemma_increasing_unique(a2, b2);
        assert(a =~= a2.push(la));
        assert(b =~= b2.push(lb));
    }
}

/// `ordered` gives back an increasing sequence from the set of its texts.
pub proof fn lemma_ordered(s: Seq<Seq<char>>)
    requires
        increasing(s),
    ensures
        ordered(s.to_set()) == s,
{
    let q = ordered(s.to_set());
    assert(increasing(q) && q.to_set() == s.to_set());
    lemma_increasing_unique(q, s);
}

/// A map from texts to values, in the order of texts.
#[derive(Debug, PartialEq)]
#[verifier::reject_recursive_types(V)]
pub struct StringMap<V: DeepView> {
    entries: Vec<(String, V)>,
}

impl<V: DeepView> StringMap<V> {
    /// The keys, in order.
    pub closed spec fn keys(&self) -> Seq<Seq<char>> {
        Seq::new(self.entries@.len(), |i: int| self.entries@[i].0@)
    }

    /// The values, in the order of their keys.
    pub closed spec fn values(&self) -> Seq<V> {
        Seq::new(self.entries@.len(), |i: int| self.entries@[i].1)
    }

    #[verifier::type_invariant]
    spec fn in_order(&self) -> bool {
        increasing(self.keys())
    }
}

impl<V: DeepView> View for StringMap<V> {
    type V = Map<Seq<char>, V::V>;

    closed spec fn view(&self) -> Map<Seq<char>, V::V> {
        Map::new(
            |k: Seq<char>| self.keys().contains(k),
            |k: Seq<char>| self.values()[self.keys().index_of(k)].deep_view(),
        )
    }
}

impl<V: DeepView> DeepView for StringMap<V> {
    type V = Map<Seq<char>, V::V>;

    open spec fn deep_view(&self) -> Map<Seq<char>, V::V> {
        self@
    }
}

impl<V: DeepView> StringMap<V> {
    /// What the map holds at position `i`.
    proof fn lemma_at(&self, i: int)
        requires
            increasing(self.keys()),
            0 <= i < self.entries@.len(),
        ensures
            self@.contains_key(self.keys()[i]),
            self@[self.keys()[i]] == self.entries@[i].1.deep_view(),
    {
        lemma_increasing_distinct(self.keys());
        assert(self.keys().contains(self.keys()[i]));
        assert(self.keys().index_of(self.keys()[i]) == i);
    }

    /// The keys of the map in order are `ordered` of its domain.
    proof fn lemma_keys(&self)
        requires
            increasing(self.keys()),
        ensures
            ordered(self@.dom()) == self.keys(),
    {
        assert(self@.dom() =~= self.keys().to_set());
        lemma_ordered(self.keys());
    }

    /// An empty map.
    pub fn new() -> (r: Self)
        ensures
            r@ == Map::<Seq<char>, V::V>::empty(),
    {
        let r = StringMap { entries: Vec::new() };
        assert(r@ =~= Map::<Seq<char>, V::V>::empty());
        r
    }

    /// How many keys the map has.
    pub fn len(&self) -> (r: usize)
        ensures
            r == ordered(self@.dom()).len(),
            forall|i: int|
                0 <= i < r ==> self@.contains_key(#[trigger] ordered(self@.dom())[i]),
            increasing(ordered(self@.dom())),
            ordered(self@.dom()).to_set() == self@.dom(),
    {
        proof {
            use_type_invariant(self);
            self.lemma_keys();
            assert forall|i: int| 0 <= i < self.entries@.len() implies self@.contains_key(
                #[trigger] ordered(self@.dom())[i],
            ) by {
                self.lemma_at(i);
            }
            assert(self@.dom() =~= self.keys().to_set());
        }
        self.entries.len()
    }

    /// Whether the map is empty.
    pub fn is_empty(&self) -> (r: bool)
        ensures
            r == (self@ == Map::<Seq<char>, V::V>::empty()),
    {
        proof {
            use_type_invariant(self);
            if self.entries@.len() > 0 {
                self.lemma_at(0);
            } else {
                assert(self@ =~= Map::<Seq<char>, V::V>::empty());
            }
        }
        self.entries.len() == 0
    }

    /// The key at position `i` in the order of texts.
    pub fn key_at(&self, i: usize) -> (r: &String)
        requires
            i < ordered(self@.dom()).len(),
        ensures
            r@ == ordered(self@.dom())[i as int],
            self@.contains_key(r@),
    {
        proof {
            use_type_invariant(self);
            self.lemma_keys();
            self.lemma_at(i as int);
        }
        &self.entries[i].0
    }

    /// The value at position `i` in the order of texts.
    pub fn value_at(&self, i: usize) -> (r: &V)
        requires
            i < ordered(self@.dom()).len(),
        ensures
            r.deep_view() == self@[ordered(self@.dom())[i as int]],
    {
        proof {
            use_type_invariant(self);
            self.lemma_keys();
            self.lemma_at(i as int);
        }
        &self.entries[i].1
    }

    /// The position of the first key that is not before `key`.
    fn position(&self, key: &str) -> (r: usize)
        ensures
            r <= self.entries@.len(),
            forall|i: int| 0 <= i < r ==> crate::text::text_less(#[trigger] self.keys()[i], key@),
            forall|i: int|
                r <= i < self.entries@.len() ==> !crate::text::text_less(
                    #[trigger] self.keys()[i],
                    key@,
                ),
    {
        proof {
            use_type_invariant(self);
        }
        let mut low: usize = 0;
        let mut high: usize = self.entries.len();
        while low < high
            invariant
                low <= high <= self.entries@.len(),
                increasing(self.keys()),
                forall|i: int|
                    0 <= i < low ==> crate::text::text_less(#[trigger] self.keys()[i], key@),
                forall|i: int|
                    high <= i < self.entries@.len() ==> !crate::text::text_less(
                        #[trigger] self.keys()[i],
                        key@,
                    ),
            decreases high - low,
        {
            let middle: usize = low + (high - low) / 2;
            let ghost pivot = self.keys()[middle as int];
            if text_before(self.entries[middle].0.as_str(), key) {
                proof {
                    assert forall|i: int| 0 <= i < middle + 1 implies crate::text::text_less(
                        #[trigger] self.keys()[i],
                        key@,
                    ) by {
                        if i < middle {
                            lemma_text_less_transitive(self.keys()[i], pivot, key@);
                        }
                    }
                }
                low = middle + 1;
            } else {
                proof {
                    assert forall|i: int|
                        middle <= i < self.entries@.len() implies !crate::text::text_less(
                        #[trigger] self.keys()[i],
                        key@,
                    ) by {
                        if i > middle && crate::text::text_less(self.keys()[i], key@) {
                            lemma_text_less_transitive(pivot, self.keys()[i], key@);
                        }
                    }
                }
                high = middle;
            }
        }
        low
    }

    /// The position of `key`, where the map has it.
    fn find(&self, key: &str) -> (r: Option<usize>)
        ensures
            match r {
                Some(i) => i < self.entries@.len() && self.keys()[i as int] == key@,
                None => !self@.contains_key(key@),
            },
    {
        proof {
            use_type_invariant(self);
        }
        let at = self.position(key);
        if at < self.entries.len() && !text_before(key, self.entries[at].0.as_str()) {
            proof {
                lemma_text_less_total(self.keys()[at as int], key@);
            }
            Some(at)
        } else {
            proof {
                if self.keys().contains(key@) {
                    let i = self.keys().index_of(key@);
                    lemma_text_less_irreflexive(key@);
                    if i > at {
                        assert(crate::text::text_less(self.keys()[at as int], self.keys()[i]));
                    }
                }
            }
            None
        }
    }

    /// The value at `key`, where the map has it.
    pub fn get(&self, key: &str) -> (r: Option<&V>)
        ensures
            match r {
                Some(v) => self@.contains_key(key@) && v.deep_view() == self@[key@],
                None => !self@.contains_key(key@),
            },
    {
        proof {
            use_type_invariant(self);
        }
        match self.find(key) {
            Some(i) => {
                proof {
                    self.lemma_at(i as int);
                }
                Some(&self.entries[i].1)
            },
            None => None,
        }
    }

    /// Whether the map has `key`.
    pub fn contains_key(&self, key: &str) -> (r: bool)
        ensures
            r == self@.contains_key(key@),
    {
        self.get(key).is_some()
    }

    /// Puts `value` at `key`, in place of what was there.
    pub fn insert(&mut self, key: String, value: V)
        ensures
            final(self)@ == old(self)@.insert(key@, value.deep_view()),
    {
        proof {
            use_type_invariant(&*self);
        }
        let found = self.find(key.as_str());
        let at = self.position(key.as_str());
        let ghost before = *self;
        let mut entries: Vec<(String, V)> = Vec::new();
        std::mem::swap(&mut entries, &mut self.entries);
        match found {
            Some(i) => {
                let ghost k = key@;
                let ghost v = value;
                entries.set(i, (key, value));
                assert(Seq::new(entries@.len(), |j: int| entries@[j].0@) =~= before.keys());
                let r = StringMap { entries };
                proof {
                    assert(r.keys() =~= before.keys());
                    before.lemma_at(i as int);
                    lemma_increasing_distinct(r.keys());
                    assert(r@ =~= before@.insert(k, v.deep_view())) by {
                        assert forall|x: Seq<char>| r.keys().contains(x) implies r@[x]
                            == before@.insert(k, v.deep_view())[x] by {
                            let j = r.keys().index_of(x);
                            r.lemma_at(j);
                            before.lemma_at(j);
                        }
                    }
                }
                *self = r;
            },
            None => {
                let ghost k = key@;
                let ghost v = value;
                entries.insert(at, (key, value));
                proof {
                    let r: StringMap<V> = StringMap { entries };
                    assert(r.keys() =~= before.keys().insert(at as int, k));
                    assert forall|i: int, j: int|
                        0 <= i < j < r.keys().len() implies crate::text::text_less(
                        #[trigger] r.keys()[i],
                        #[trigger] r.keys()[j],
                    ) by {
                        let bi = if i < at {
                            i
                        } else {
                            i - 1
                        };
                        let bj = if j < at {
                            j
                        } else {
                            j - 1
                        };
                        if i != at && j != at {
                            assert(r.keys()[i] == before.keys()[bi]);
                            assert(r.keys()[j] == before.keys()[bj]);
                        } else if i == at {
                            assert(r.keys()[j] == before.keys()[bj]);
                            lemma_text_less_total(before.keys()[bj], k);
                            assert(before.keys().contains(before.keys()[bj]));
                        } else {
                            assert(r.keys()[i] == before.keys()[bi]);
                        }
                    }
                    lemma_increasing_distinct(r.keys());
                    assert(r@ =~= before@.insert(k, v.deep_view())) by {
                        assert forall|x: Seq<char>|
                            r.keys().contains(x) <==> (before.keys().contains(x) || x == k) by {
                            if before.keys().contains(x) {
                                let j = before.keys().index_of(x);
                                if j < at {
                                    assert(r.keys()[j] == x);
                                } else {
                                    assert(r.keys()[j + 1] == x);
                                }
                            }
                            if x == k {
                                assert(r.keys()[at as int] == x);
                            }
                            if r.keys().contains(x) {
                                let j = r.keys().index_of(x);
                                if j < at {
                                    assert(before.keys()[j] == x);
                                } else if j > at {
                                    assert(before.keys()[j - 1] == x);
                                }
                            }
                        }
                        assert forall|x: Seq<char>| r.keys().contains(x) implies r@[x]
                            == before@.insert(k, v.deep_view())[x] by {
                            let j = r.keys().index_of(x);
                            r.lemma_at(j);
                            if j < at {
                                before.lemma_at(j);
                            } else if j > at {
                                before.lemma_at(j - 1);
                            }
                        }
                    }
                }
                let r = StringMap { entries };
                *self = r;
            },
        }
    }

    /// Takes `key` and its value out of the map, where the map has it.
    pub fn take(&mut self, key: &str) -> (r: Option<V>)
        ensures
            final(self)@ == old(self)@.remove(key@),
            match r {
                Some(v) => old(self)@.contains_key(key@) && v.deep_view() == old(self)@[key@],
                None => !old(self)@.contains_key(key@),
            },
    {
        proof {
            use_type_invariant(&*self);
        }
        let found = self.find(key);
        match found {
            Some(i) => {
                let ghost before = *self;
                let mut entries: Vec<(String, V)> = Vec::new();
                std::mem::swap(&mut entries, &mut self.entries);
                let (_, value) = entries.remove(i);
                proof {
                    let r: StringMap<V> = StringMap { entries };
                    assert(r.keys() =~= before.keys().remove(i as int));
                    assert forall|a: int, b: int|
                        0 <= a < b < r.keys().len() implies crate::text::text_less(
                        #[trigger] r.keys()[a],
                        #[trigger] r.keys()[b],
                    ) by {
                        let ba = if a < i {
                            a
                        } else {
                            a + 1
                        };
                        let bb = if b < i {
                            b
                        } else {
                            b + 1
                        };
                        assert(r.keys()[a] == before.keys()[ba]);
                        assert(r.keys()[b] == before.keys()[bb]);
                    }
                    lemma_increasing_distinct(before.keys());
                    before.lemma_at(i as int);
                    assert(r@ =~= before@.remove(key@)) by {
                        assert forall|x: Seq<char>|
                            r.keys().contains(x) <==> (before.keys().contains(x) && x != key@) by {
                            if before.keys().contains(x) && x != key@ {
                                let j = before.keys().index_of(x);
                                if j < i {
                                    assert(r.keys()[j] == x);
                                } else {
                                    assert(r.keys()[j - 1] == x);
                                }
                            }
                            if r.keys().contains(x) {
                                let j = r.keys().index_of(x);
                                if j < i {
                                    assert(before.keys()[j] == x);
                                } else {
                                    assert(before.keys()[j + 1] == x);
                                }
                            }
                        }
                        assert forall|x: Seq<char>| r.keys().contains(x) implies r@[x]
                            == before@.remove(key@)[x] by {
                            let j = r.keys().index_of(x);
                            r.lemma_at(j);
                            if j < i {
                                before.lemma_at(j);
                            } else {
                                before.lemma_at(j + 1);
                            }
                        }
                    }
                }
                let r = StringMap { entries };
                *self = r;
                Some(value)
            },
            None => {
                assert(self@.remove(key@) =~= self@);
                None
            },
        }
    }
}

impl<V: Duplicate> Duplicate for StringMap<V> {
    fn duplicate(&self) -> (r: Self) {
        let mut out: StringMap<V> = StringMap::new();
        let n: usize = self.len();
        let ghost keys = ordered(self@.dom());
        let mut i: usize = 0;
        while i < n
            invariant
                i <= n,
                n == keys.len(),
                keys == ordered(self@.dom()),
                increasing(keys),
                keys.to_set() == self@.dom(),
                forall|x: Seq<char>| #[trigger] out@.contains_key(x) <==> keys.take(i as int).contains(x),
                forall|x: Seq<char>| #[trigger] out@.contains_key(x) ==> out@[x] == self@[x],
            decreases n - i,
        {
            let ghost before = out@;
            out.insert(self.key_at(i).clone(), self.value_at(i).duplicate());
            proof {

                assert(keys.take(i + 1) =~= keys.take(i as int).push(keys[i as int]));
                assert forall|x: Seq<char>| keys.take(i + 1).contains(x) <==> (keys.take(
                    i as int,
                ).contains(x) || x == keys[i as int]) by {
                    if keys.take(i as int).contains(x) {
                        let j = keys.take(i as int).index_of(x);
                        assert(keys.take(i + 1)[j] == x);
                    }
                    if x == keys[i as int] {
                        assert(keys.take(i + 1)[i as int] == x);
                    }
                }
                assert forall|x: Seq<char>| #[trigger] out@.contains_key(x) <==> keys.take(
                    i + 1,
                ).contains(x) by {
                    assert(before.contains_key(x) <==> keys.take(i as int).contains(x));
                }
            }
            i += 1;
        }
        proof {
            assert(keys.take(n as int) =~= keys);
            assert forall|x: Seq<char>| keys.contains(x) <==> self@.contains_key(x) by {
                assert(keys.to_set().contains(x) <==> keys.contains(x));
            }
            assert(out@ =~= self@);
        }
        out
    }
}

impl<V: Duplicate> Clone for StringMap<V> {
    fn clone(&self) -> (r: Self)
        ensures
            r@ == self@,
    {
        self.duplicate()
    }
}

/// A set of texts, in the order of texts.
#[derive(Debug, Clone, PartialEq)]
pub struct StringSet {
    map: StringMap<()>,
}

impl View for StringSet {
    type V = Set<Seq<char>>;

    closed spec fn view(&self) -> Set<Seq<char>> {
        self.map@.dom()
    }
}

impl DeepView for StringSet {
    type V = Set<Seq<char>>;

    open spec fn deep_view(&self) -> Set<Seq<char>> {
        self@
    }
}

impl StringSet {
    /// An empty set.
    pub fn new() -> (r: Self)
        ensures
            r@ == Set::<Seq<char>>::empty(),
    {
        let r = StringSet { map: StringMap::new() };
        assert(r@ =~= Set::<Seq<char>>::empty());
        r
    }

    /// Whether two sets have the same texts.
    pub fn same(&self, other: &StringSet) -> (r: bool)
        ensures
            r == (self@ == other@),
    {
        let count: usize = self.len();
        if count != other.len() {
            return false;
        }
        let mut i: usize = 0;
        while i < count
            invariant
                i <= count,
                count == ordered(self@).len(),
                count == ordered(other@).len(),
                ordered(self@).to_set() == self@,
                ordered(other@).to_set() == other@,
                forall|k: int| 0 <= k < i ==> #[trigger] ordered(self@)[k] == ordered(other@)[k],
            decreases count - i,
        {
            if !crate::text::same_text(self.item_at(i).as_str(), other.item_at(i).as_str()) {
                return false;
            }
            i += 1;
        }
        assert(ordered(self@) =~= ordered(other@));
        true
    }

    /// How many texts the set has.
    pub fn len(&self) -> (r: usize)
        ensures
            r == ordered(self@).len(),
            forall|i: int| 0 <= i < r ==> self@.contains(#[trigger] ordered(self@)[i]),
            increasing(ordered(self@)),
            ordered(self@).to_set() == self@,
    {
        self.map.len()
    }

    /// Whether the set is empty.
    pub fn is_empty(&self) -> (r: bool)
        ensures
            r == (self@ == Set::<Seq<char>>::empty()),
    {
        let r = self.map.is_empty();
        proof {
            if self@ == Set::<Seq<char>>::empty() {
                assert(self.map@ =~= Map::<Seq<char>, ()>::empty());
            }
        }
        r
    }

    /// The text at position `i` in the order of texts.
    pub fn item_at(&self, i: usize) -> (r: &String)
        requires
            i < ordered(self@).len(),
        ensures
            r@ == ordered(self@)[i as int],
            self@.contains(r@),
    {
        self.map.key_at(i)
    }

    /// Whether the set has `item`.
    pub fn contains(&self, item: &str) -> (r: bool)
        ensures
            r == self@.contains(item@),
    {
        self.map.contains_key(item)
    }

    /// Puts `item` into the set; tells whether it was not there before.
    pub fn insert(&mut self, item: String) -> (r: bool)
        ensures
            final(self)@ == old(self)@.insert(item@),
            r == !old(self)@.contains(item@),
    {
        let fresh = !self.map.contains_key(item.as_str());
        let ghost k = item@;
        self.map.insert(item, ());
        assert(self@ =~= old(self)@.insert(k));
        fresh
    }

    /// Takes `item` out of the set; tells whether it was there.
    pub fn remove(&mut self, item: &str) -> (r: bool)
        ensures
            final(self)@ == old(self)@.remove(item@),
            r == old(self)@.contains(item@),
    {
        let found = self.map.take(item);
        assert(self@ =~= old(self)@.remove(item@));
        found.is_some()
    }
}

impl Duplicate for StringSet {
    fn duplicate(&self) -> (r: Self) {
        StringSet { map: self.map.duplicate() }
    }
}

impl<V: DeepView> StringMap<V> {
    /// The keys of the map.
    pub fn key_set(&self) -> (r: StringSet)
        ensures
            r@ == self@.dom(),
    {
        let mut out = StringSet::new();
        let n: usize = self.len();
        let ghost keys = ordered(self@.dom());
        let mut i: usize = 0;
        while i < n
            invariant
                i <= n,
                n == keys.len(),
                keys == ordered(self@.dom()),
                keys.to_set() == self@.dom(),
                out@ == keys.take(i as int).to_set(),
            decreases n - i,
        {
            let _ = out.insert(self.key_at(i).clone());
            proof {
                lemma_take_set(keys, i as int);
            }
            i += 1;
        }
        assert(keys.take(n as int) =~= keys);
        out
    }
}

/// The set of one more text of a sequence.
pub proof fn lemma_take_set(s: Seq<Seq<char>>, i: int)
    requires
        0 <= i < s.len(),
    ensures
        s.take(i + 1).to_set() == s.take(i).to_set().insert(s[i]),
{
    let more = s.take(i + 1);
    let less = s.take(i);
    assert forall|x: Seq<char>| #[trigger] more.to_set().contains(x) <==> less.to_set().insert(
        s[i],
    ).contains(x) by {
        if more.contains(x) {
            let k = more.index_of(x);
            if k < i {
                assert(less[k] == x);
            }
        }
        if less.contains(x) {
            let k = less.index_of(x);
            assert(more[k] == x);
        }
        if x == s[i] {
            assert(more[i] == x);
        }
    }
    assert(more.to_set() =~= less.to_set().insert(s[i]));
}

impl StringSet {
    /// Adds the texts of another set.
    pub fn extend(&mut self, other: &StringSet)
        ensures
            final(self)@ == old(self)@.union(other@),
    {
        let n: usize = other.len();
        let ghost all = ordered(other@);
        let ghost start = self@;
        let mut i: usize = 0;
        assert(start.union(all.take(0).to_set()) =~= start);
        while i < n
            invariant
                i <= n,
                n == all.len(),
                all == ordered(other@),
                all.to_set() == other@,
                self@ == start.union(all.take(i as int).to_set()),
            decreases n - i,
        {
            let _ = self.insert(other.item_at(i).clone());
            proof {
                lemma_take_set(all, i as int);
                assert(start.union(all.take(i + 1).to_set()) =~= start.union(
                    all.take(i as int).to_set(),
                ).insert(all[i as int]));
            }
            i += 1;
        }
        assert(all.take(n as int) =~= all);
    }
}

/// How many of the texts stand before the place of `a` in an increasing sequence.
spec fn place_in(q: Seq<Seq<char>>, a: Seq<char>) -> int
    decreases q.len(),
{
    if q.len() == 0 || crate::text::text_less(q.last(), a) {
        q.len() as int
    } else {
        place_in(q.drop_last(), a)
    }
}

/// `place_in` parts the texts before `a` from those behind it.
proof fn lemma_place_in(q: Seq<Seq<char>>, a: Seq<char>)
    requires
        increasing(q),
        !q.contains(a),
    ensures
        0 <= place_in(q, a) <= q.len(),
        forall|i: int| 0 <= i < place_in(q, a) ==> crate::text::text_less(#[trigger] q[i], a),
        forall|i: int| place_in(q, a) <= i < q.len() ==> crate::text::text_less(a, #[trigger] q[i]),
    decreases q.len(),
{
    if q.len() == 0 {
    } else if crate::text::text_less(q.last(), a) {
        assert forall|i: int| 0 <= i < q.len() implies crate::text::text_less(#[trigger] q[i], a) by {
            if i < q.len() - 1 {
                assert(crate::text::text_less(q[i], q[q.len() - 1]));
                lemma_text_less_transitive(q[i], q.last(), a);
            }
        }
    } else {
        let shorter = q.drop_last();
        assert forall|i: int| 0 <= i < shorter.len() implies shorter[i] != a by {
            assert(q[i] == shorter[i]);
        }
        lemma_place_in(shorter, a);
        assert(q.contains(q.last()));
        lemma_text_less_total(q.last(), a);
        assert forall|i: int| place_in(q, a) <= i < q.len() implies crate::text::text_less(
            a,
            #[trigger] q[i],
        ) by {
            if i < q.len() - 1 {
                assert(shorter[i] == q[i]);
            }
        }
        assert forall|i: int| 0 <= i < place_in(q, a) implies crate::text::text_less(
            #[trigger] q[i],
            a,
        ) by {
            assert(shorter[i] == q[i]);
        }
    }
}

/// The texts of a finite set can be put in order.
pub proof fn lemma_orderable(s: Set<Seq<char>>)
    requires
        s.finite(),
    ensures
        increasing(ordered(s)),
        ordered(s).to_set() == s,
        ordered(s).no_duplicates(),
    decreases s.len(),
{
    let q: Seq<Seq<char>> = if s.len() == 0 {
        seq![]
    } else {
        let a = s.choose();
        let rest = s.remove(a);
        lemma_orderable(rest);
        let before = ordered(rest);
        before.insert(place_in(before, a), a)
    };
    if s.len() == 0 {
        assert(s =~= Set::<Seq<char>>::empty());
        assert(q.to_set() =~= s);
    } else {
        let a = s.choose();
        let rest = s.remove(a);
        lemma_orderable(rest);
        let before = ordered(rest);
        let p = place_in(before, a);
        assert(!before.contains(a)) by {
            assert(before.to_set().contains(a) <==> before.contains(a));
        }
        lemma_place_in(before, a);
        assert forall|i: int, j: int| 0 <= i < j < q.len() implies crate::text::text_less(
            #[trigger] q[i],
            #[trigger] q[j],
        ) by {
            let bi = if i < p {
                i
            } else {
                i - 1
            };
            let bj = if j < p {
                j
            } else {
                j - 1
            };
            if i != p {
                assert(q[i] == before[bi]);
            }
            if j != p {
                assert(q[j] == before[bj]);
            }
        }
        assert forall|x: Seq<char>| #[trigger] q.to_set().contains(x) <==> s.contains(x) by {
            if q.contains(x) {
                let i = q.index_of(x);
                if i < p {
                    assert(before[i] == x);
                    assert(before.contains(x));
                    assert(before.to_set().contains(x));
                } else if i > p {
                    assert(before[i - 1] == x);
                    assert(before.contains(x));
                    assert(before.to_set().contains(x));
                }
            }
            if s.contains(x) {
                if x == a {
                    assert(q[p] == x);
                } else {
                    assert(rest.contains(x));
                    assert(before.to_set().contains(x));
                    let i = before.index_of(x);
                    if i < p {
                        assert(q[i] == x);
                    } else {
                        assert(q[i + 1] == x);
                    }
                }
            }
        }
        assert(q.to_set() =~= s);
    }
    lemma_ordered(q);
    lemma_increasing_distinct(q);
}

} // verus!
