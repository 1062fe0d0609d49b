//! Maps and sets keyed by text and kept in key order.
use vstd::prelude::*;

use crate::text::{before, compare, Order};

verus! {

/// A value that can be copied out of a collection and compared by what it
/// means rather than by how it is stored.
pub trait Value: DeepView + Sized {
    fn copied(&self) -> (result: Self)
        ensures
            result.deep_view() == self.deep_view(),
    ;

    fn same(&self, other: &Self) -> (result: bool)
        ensures
            result == (self.deep_view() == other.deep_view()),
    ;
}

impl Value for String {
    fn copied(&self) -> (result: Self) {
        self.clone()
    }

    fn same(&self, other: &Self) -> (result: bool) {
        crate::text::same_text(self.as_str(), other.as_str())
    }
}

impl<T: Value> Value for Option<T> {
    fn copied(&self) -> (result: Self) {
        match self {
            Some(value) => Some(value.copied()),
            None => None,
        }
    }

    fn same(&self, other: &Self) -> (result: bool) {
        match (self, other) {
            (Some(a), Some(b)) => a.same(b),
            (None, None) => true,
            _ => false,
        }
    }
}

// Key order

/// Strictly increasing, hence without duplicates.
pub open spec fn increasing(keys: Seq<Seq<char>>) -> bool {
    forall|i: int, j: int| 0 <= i < j < keys.len() ==> before(#[trigger] keys[i], #[trigger] keys[j])
}

/// `keys` lists exactly the members of `set`, in order.
pub open spec fn lists(keys: Seq<Seq<char>>, set: Set<Seq<char>>) -> bool {
    &&& increasing(keys)
    &&& forall|k: Seq<char>| #[trigger] set.contains(k) <==> keys.contains(k)
}

/// The members of a finite set of texts, in order.
pub open spec fn ordered(set: Set<Seq<char>>) -> Seq<Seq<char>> {
    choose|keys: Seq<Seq<char>>| lists(keys, set)
}

proof fn lemma_lists_unique(a: Seq<Seq<char>>, b: Seq<Seq<char>>, set: Set<Seq<char>>)
    requires
        lists(a, set),
        lists(b, set),
    ensures
        a == b,
    decreases a.len(),
{
    if a.len() == 0 {
        if b.len() > 0 {
            assert(b.contains(b[0]));
            assert(set.contains(b[0]));
        }
        assert(a =~= b);
    } else {
        assert(a.contains(a.last()));
        assert(set.contains(a.last()));
        let i = choose|i: int| 0 <= i < b.len() && b[i] == a.last();
        assert(b.contains(b.last()));
        assert(set.contains(b.last()));
        let j = choose|j: int| 0 <= j < a.len() && a[j] == b.last();
        if a.last() != b.last() {
            assert(before(b[i], b[b.len() - 1]));
            assert(before(a[j], a[a.len() - 1]));
            crate::text::lemma_before_asymmetric(a.last(), b.last());
        }
        let rest = set.remove(a.last());
        assert(lists(a.drop_last(), rest)) by {
            assert forall|k: Seq<char>| #[trigger] rest.contains(k) <==> a.drop_last().contains(k) by {
                lemma_drop_last_contains(a, k);
            }
        }
        assert(lists(b.drop_last(), rest)) by {
            assert forall|k: Seq<char>| #[trigger] rest.contains(k) <==> b.drop_last().contains(k) by {
                lemma_drop_last_contains(b, k);
            }
        }
        lemma_lists_unique(a.drop_last(), b.drop_last(), rest);
        assert(a =~= a.drop_last().push(a.last()));
        assert(b =~= b.drop_last().push(b.last()));
    }
}

proof fn lemma_drop_last_contains(keys: Seq<Seq<char>>, k: Seq<char>)
    requires
        increasing(keys),
        keys.len() > 0,
    ensures
        keys.drop_last().contains(k) <==> keys.contains(k) && k != keys.last(),
{
    if keys.drop_last().contains(k) {
        let i = choose|i: int| 0 <= i < keys.drop_last().len() && keys.drop_last()[i] == k;
        assert(keys[i] == k);
        assert(before(keys[i], keys[keys.len() - 1]));
        crate::text::lemma_before_irreflexive(k);
    }
    if keys.contains(k) && k != keys.last() {
        let i = choose|i: int| 0 <= i < keys.len() && keys[i] == k;
        assert(keys.drop_last()[i] == k);
    }
}

/// A listing of a set is its ordered form.
pub proof fn lemma_ordered_is(keys: Seq<Seq<char>>, set: Set<Seq<char>>)
    requires
        lists(keys, set),
    ensures
        ordered(set) == keys,
        set.finite(),
        set.len() == keys.len(),
{
    lemma_lists_unique(keys, ordered(set), set);
    assert(keys.to_set() =~= set);
    assert(keys.no_duplicates()) by {
        assert forall|i: int, j: int| 0 <= i < keys.len() && 0 <= j < keys.len() && i != j implies keys[i]
            != keys[j] by {
            if i < j {
                crate::text::lemma_before_irreflexive(keys[i]);
            } else {
                crate::text::lemma_before_irreflexive(keys[j]);
            }
        }
    }
    keys.unique_seq_to_set();
}

spec fn inserted(keys: Seq<Seq<char>>, k: Seq<char>) -> Seq<Seq<char>>
    decreases keys.len(),
{
    if keys.len() == 0 {
        seq![k]
    } else if before(keys.last(), k) {
        keys.push(k)
    } else {
        inserted(keys.drop_last(), k).push(keys.last())
    }
}

proof fn lemma_inserted(keys: Seq<Seq<char>>, k: Seq<char>)
    requires
        increasing(keys),
        !keys.contains(k),
    ensures
        increasing(inserted(keys, k)),
        forall|x: Seq<char>| #[trigger] inserted(keys, k).contains(x) <==> keys.contains(x) || x == k,
    decreases keys.len(),
{
    let all = inserted(keys, k);
    if keys.len() == 0 {
        assert(all[0] == k);
    } else if before(keys.last(), k) {
        assert forall|i: int, j: int| 0 <= i < j < all.len() implies before(#[trigger] all[i], #[trigger] all[j]) by {
            if j == keys.len() && i < keys.len() - 1 {
                assert(before(keys[i], keys[keys.len() - 1]));
                crate::text::lemma_before_transitive(keys[i], keys.last(), k);
            }
        }
        assert(all[keys.len() as int] == k);
        assert forall|x: Seq<char>| keys.contains(x) implies #[trigger] all.contains(x) by {
            let i = choose|i: int| 0 <= i < keys.len() && keys[i] == x;
            assert(all[i] == x);
        }
    } else {
        let front = keys.drop_last();
        assert(!front.contains(k)) by {
            if front.contains(k) {
                let i = choose|i: int| 0 <= i < front.len() && front[i] == k;
                assert(keys[i] == k);
            }
        }
        lemma_inserted(front, k);
        let mid = inserted(front, k);
        assert(keys.contains(keys.last()));
        crate::text::lemma_before_total(k, keys.last());
        assert forall|i: int, j: int| 0 <= i < j < all.len() implies before(#[trigger] all[i], #[trigger] all[j]) by {
            if j == mid.len() {
                assert(mid.contains(mid[i]));
                if mid[i] != k {
                    let p = choose|p: int| 0 <= p < front.len() && front[p] == mid[i];
                    assert(before(keys[p], keys[keys.len() - 1]));
                }
            }
        }
        assert(all[mid.len() as int] == keys.last());
        assert forall|x: Seq<char>| #[trigger] all.contains(x) <==> keys.contains(x) || x == k by {
            lemma_drop_last_contains(keys, x);
            if all.contains(x) {
                let i = choose|i: int| 0 <= i < all.len() && all[i] == x;
                if i < mid.len() {
                    assert(mid.contains(mid[i]));
                }
            }
            if mid.contains(x) {
                let i = choose|i: int| 0 <= i < mid.len() && mid[i] == x;
                assert(all[i] == x);
            }
        }
    }
}

/// Every finite set of texts has an ordered form that lists it.
pub proof fn lemma_ordered(set: Set<Seq<char>>)
    requires
        set.finite(),
    ensures
        lists(ordered(set), set),
        ordered(set).len() == set.len(),
    decreases set.len(),
{
    if set.len() == 0 {
        assert(set =~= Set::empty());
        assert(lists(Seq::empty(), set));
        lemma_ordered_is(Seq::empty(), set);
    } else {
        let k = set.choose();
        let rest = set.remove(k);
        lemma_ordered(rest);
        let keys = ordered(rest);
        assert(!keys.contains(k)) by {
            if keys.contains(k) {
                assert(rest.contains(k));
            }
        }
        lemma_inserted(keys, k);
        let all = inserted(keys, k);
        assert forall|x: Seq<char>| #[trigger] set.contains(x) <==> all.contains(x) by {
            if set.contains(x) && x != k {
                assert(rest.contains(x));
            }
            if keys.contains(x) {
                assert(rest.contains(x));
            }
        }
        lemma_ordered_is(all, set);
    }
}

// Maps

/// A map from texts to values, stored in key order.
#[derive(Debug)]
pub struct TextMap<V> {
    entries: Vec<(String, V)>,
}

pub closed spec fn stored_keys<V>(entries: Seq<(String, V)>) -> Seq<Seq<char>> {
    Seq::new(entries.len(), |i: int| entries[i].0@)
}

impl<V> TextMap<V> {
    #[verifier::type_invariant]
    spec fn in_order(self) -> bool {
        increasing(stored_keys(self.entries@))
    }
}

impl<V: DeepView> TextMap<V> {
    spec fn position(self, key: Seq<char>) -> int {
        choose|i: int| 0 <= i < self.entries@.len() && #[trigger] self.entries@[i].0@ == key
    }

    pub closed spec fn contents(self) -> Map<Seq<char>, V::V> {
        Map::new(
            |key: Seq<char>| stored_keys(self.entries@).contains(key),
            |key: Seq<char>| self.entries@[self.position(key)].1.deep_view(),
        )
    }
}

impl<V: DeepView> View for TextMap<V> {
    type V = Map<Seq<char>, V::V>;

    open spec fn view(&self) -> Self::V {
        self.contents()
    }
}

impl<V: DeepView> DeepView for TextMap<V> {
    type V = Map<Seq<char>, V::V>;

    open spec fn deep_view(&self) -> Self::V {
        self.contents()
    }
}

/// The keys of a map, in order.
pub open spec fn keys_of<T>(map: Map<Seq<char>, T>) -> Seq<Seq<char>> {
    ordered(map.dom())
}

/// The map with an entry, where it has none under the key yet.
pub open spec fn with_entry<T>(map: Map<Seq<char>, T>, key: Seq<char>, value: T) -> Map<Seq<char>, T> {
    if map.contains_key(key) {
        map
    } else {
        map.insert(key, value)
    }
}

impl<V: DeepView> TextMap<V> {
    proof fn lemma_contents(self)
        requires
            increasing(stored_keys(self.entries@)),
        ensures
            lists(stored_keys(self.entries@), self@.dom()),
            keys_of(self@) == stored_keys(self.entries@),
            self@.dom().finite(),
            self@.dom().len() == self.entries@.len(),
            forall|i: int|
                0 <= i < self.entries@.len() ==> {
                    &&& self@.contains_key(#[trigger] self.entries@[i].0@)
                    &&& self@[self.entries@[i].0@] == self.entries@[i].1.deep_view()
                },
    {
        let keys = stored_keys(self.entries@);
        assert(lists(keys, self@.dom()));
        lemma_ordered_is(keys, self@.dom());
        assert forall|i: int| 0 <= i < self.entries@.len() implies {
            &&& self@.contains_key(#[trigger] self.entries@[i].0@)
            &&& self@[self.entries@[i].0@] == self.entries@[i].1.deep_view()
        } by {
            let key = self.entries@[i].0@;
            assert(keys[i] == key);
            assert(keys.contains(key));
            let p = self.position(key);
            assert(0 <= p < self.entries@.len() && self.entries@[p].0@ == key);
            assert(keys[p] == key);
            crate::text::lemma_before_irreflexive(key);
            if p < i {
                assert(before(keys[p], keys[i]));
            } else if i < p {
                assert(before(keys[i], keys[p]));
            }
        }
    }

    /// The empty map.
    pub fn new() -> (result: Self)
        ensures
            result@ == Map::<Seq<char>, V::V>::empty(),
    {
        let result = TextMap { entries: Vec::new() };
        assert(result@ =~= Map::<Seq<char>, V::V>::empty());
        result
    }

    pub fn len(&self) -> (n: usize)
        ensures
            self@.dom().finite(),
            n == self@.dom().len(),
            n == keys_of(self@).len(),
            lists(keys_of(self@), self@.dom()),
    {
        proof {
            use_type_invariant(self);
            self.lemma_contents();
        }
        self.entries.len()
    }

    pub fn is_empty(&self) -> (result: bool)
        ensures
            result == (self@.dom() == Set::<Seq<char>>::empty()),
            result == (self@ == Map::<Seq<char>, V::V>::empty()),
    {
        proof {
            use_type_invariant(self);
            self.lemma_contents();
            if self.entries@.len() == 0 {
                assert(self@.dom() =~= Set::<Seq<char>>::empty());
                assert(self@ =~= Map::<Seq<char>, V::V>::empty());
            } else {
                assert(self@.dom().contains(self.entries@[0].0@));
            }
        }
        self.entries.len() == 0
    }

    /// Where `key` is stored, or where it would have to be.
    fn locate(&self, key: &str) -> (result: (usize, bool))
        ensures
            result.0 <= self.entries@.len(),
            result.1 ==> result.0 < self.entries@.len() && self.entries@[result.0 as int].0@ == key@,
            forall|i: int| 0 <= i < result.0 ==> before(#[trigger] self.entries@[i].0@, key@),
            !result.1 ==> forall|i: int|
                result.0 <= i < self.entries@.len() ==> before(key@, #[trigger] self.entries@[i].0@),
    {
        proof {
            use_type_invariant(self);
        }
        let mut low: usize = 0;
        let mut high: usize = self.entries.len();
        let ghost keys = stored_keys(self.entries@);
        while low < high
            invariant
                low <= high <= self.entries@.len(),
                keys == stored_keys(self.entries@),
                increasing(keys),
                forall|i: int| 0 <= i < low ==> before(#[trigger] self.entries@[i].0@, key@),
                forall|i: int|
                    high <= i < self.entries@.len() ==> before(key@, #[trigger] self.entries@[i].0@),
            decreases high - low,
        {
            let middle: usize = low + (high - low) / 2;
            match compare(self.entries[middle].0.as_str(), key) {
                Order::Equal => {
                    assert forall|i: int| 0 <= i < middle implies before(#[trigger] self.entries@[i].0@, key@) by {
                        assert(before(keys[i], keys[middle as int]));
                    }
                    return (middle, true);
                },
                Order::Less => {
                    assert forall|i: int| 0 <= i <= middle implies before(#[trigger] self.entries@[i].0@, key@) by {
                        if i < middle {
                            assert(before(keys[i], keys[middle as int]));
                            crate::text::lemma_before_transitive(keys[i], keys[middle as int], key@);
                        }
                    }
                    low = middle + 1;
                },
                Order::Greater => {
                    assert forall|i: int|
                        middle <= i < self.entries@.len() implies before(key@, #[trigger] self.entries@[i].0@) by {
                        if i > middle {
                            assert(before(keys[middle as int], keys[i]));
                            crate::text::lemma_before_transitive(key@, keys[middle as int], keys[i]);
                        }
                    }
                    high = middle;
                },
            }
        }
        (low, false)
    }

    proof fn lemma_absent(self, key: Seq<char>, at: int)
        requires
            increasing(stored_keys(self.entries@)),
            0 <= at <= self.entries@.len(),
            forall|i: int| 0 <= i < at ==> before(#[trigger] self.entries@[i].0@, key),
            forall|i: int| at <= i < self.entries@.len() ==> before(key, #[trigger] self.entries@[i].0@),
        ensures
            !self@.contains_key(key),
    {
        crate::text::lemma_before_irreflexive(key);
        if stored_keys(self.entries@).contains(key) {
            let i = choose|i: int| 0 <= i < self.entries@.len() && stored_keys(self.entries@)[i] == key;
            assert(self.entries@[i].0@ == key);
        }
    }

    pub fn get(&self, key: &str) -> (result: Option<&V>)
        ensures
            match result {
                Some(value) => self@.contains_key(key@) && value.deep_view() == self@[key@],
                None => !self@.contains_key(key@),
            },
    {
        let (at, found) = self.locate(key);
        proof {
            use_type_invariant(self);
            self.lemma_contents();
            if !found {
                self.lemma_absent(key@, at as int);
            }
        }
        if found {
            Some(&self.entries[at].1)
        } else {
            None
        }
    }

    pub fn contains_key(&self, key: &str) -> (result: bool)
        ensures
            result == self@.contains_key(key@),
    {
        match self.get(key) {
            Some(_) => true,
            None => false,
        }
    }

    /// The key at a position of the key order.
    pub fn key_at(&self, i: usize) -> (key: &String)
        requires
            i < self@.dom().len(),
        ensures
            key@ == keys_of(self@)[i as int],
            self@.contains_key(key@),
    {
        proof {
            use_type_invariant(self);
            self.lemma_contents();
        }
        &self.entries[i].0
    }

    /// The value at a position of the key order.
    pub fn value_at(&self, i: usize) -> (value: &V)
        requires
            i < self@.dom().len(),
        ensures
            self@.contains_key(keys_of(self@)[i as int]),
            value.deep_view() == self@[keys_of(self@)[i as int]],
    {
        proof {
            use_type_invariant(self);
            self.lemma_contents();
            assert(stored_keys(self.entries@)[i as int] == self.entries@[i as int].0@);
        }
        &self.entries[i].1
    }

    /// Store `value` under `key`, replacing what was there.
    pub fn insert(&mut self, key: String, value: V)
        ensures
            final(self)@ == old(self)@.insert(key@, value.deep_view()),
    {
        let (at, found) = self.locate(key.as_str());
        proof {
            use_type_invariant(&*self);
            self.lemma_contents();
        }
        let ghost before_call = *self;
        let ghost new_key = key@;
        let ghost new_value = value.deep_view();
        let mut entries: Vec<(String, V)> = Vec::new();
        std::mem::swap(&mut entries, &mut self.entries);
        let ghost keys = stored_keys(entries@);
        if found {
            entries.set(at, (key, value));
            proof {
                assert(stored_keys(entries@) =~= keys);
            }
        } else {
            entries.insert(at, (key, value));
            proof {
                let all = stored_keys(entries@);
                assert(all =~= keys.insert(at as int, new_key));
                assert forall|i: int, j: int| 0 <= i < j < all.len() implies before(#[trigger] all[i], #[trigger] all[j]) by {
                    if i < at && j > at {
                        assert(before(keys[i], keys[j - 1]));
                    } else if i < at && j == at {
                        assert(before(before_call.entries@[i].0@, new_key));
                    } else if i == at {
                        assert(before(new_key, before_call.entries@[j - 1].0@));
                    } else if j < at {
                        assert(before(keys[i], keys[j]));
                    } else {
                        assert(before(keys[i - 1], keys[j - 1]));
                    }
                }
            }
        }
        let ghost after = entries@;
        self.entries = entries;
        proof {
            self.lemma_contents();
            let target = before_call@.insert(new_key, new_value);
            assert(after[at as int].0@ == new_key);
            assert forall|k: Seq<char>| #[trigger] self@.contains_key(k) <==> target.contains_key(k) by {
                let all = stored_keys(after);
                if all.contains(k) {
                    let i = choose|i: int| 0 <= i < all.len() && all[i] == k;
                    if i != at {
                        if found || i < at {
                            assert(before_call.entries@[i].0@ == k);
                        } else {
                            assert(before_call.entries@[i - 1].0@ == k);
                        }
                    }
                }
                if before_call@.contains_key(k) && k != new_key {
                    let i = choose|i: int| 0 <= i < keys.len() && keys[i] == k;
                    if found || i < at {
                        assert(all[i] == k);
                    } else {
                        assert(all[i + 1] == k);
                    }
                }
                if k == new_key {
                    assert(all[at as int] == k);
                }
            }
            assert forall|k: Seq<char>| #[trigger] self@.contains_key(k) implies self@[k] == target[k] by {
                let all = stored_keys(after);
                let i = choose|i: int| 0 <= i < all.len() && all[i] == k;
                assert(after[i].0@ == k);
                if i != at {
                    if found || i < at {
                        assert(before_call.entries@[i].0@ == k);
                        assert(before_call.entries@[i] == after[i]);
                    } else {
                        assert(before_call.entries@[i - 1].0@ == k);
                        assert(before_call.entries@[i - 1] == after[i]);
                    }
                    crate::text::lemma_before_irreflexive(k);
                    if k == new_key {
                        assert(all[at as int] == new_key);
                        if i < at {
                            assert(before(all[i], all[at as int]));
                        } else {
                            assert(before(all[at as int], all[i]));
                        }
                    }
                }
            }
            assert(self@ =~= target);
        }
    }

    /// Take the value under `key` out of the map.
    pub fn remove(&mut self, key: &str) -> (result: Option<V>)
        ensures
            final(self)@ == old(self)@.remove(key@),
            match result {
                Some(value) => old(self)@.contains_key(key@) && value.deep_view() == old(self)@[key@],
                None => !old(self)@.contains_key(key@),
            },
    {
        let (at, found) = self.locate(key);
        proof {
            use_type_invariant(&*self);
            self.lemma_contents();
        }
        if !found {
            proof {
                self.lemma_absent(key@, at as int);
                assert(self@ =~= self@.remove(key@));
            }
            return None;
        }
        let ghost before_call = *self;
        let mut entries: Vec<(String, V)> = Vec::new();
        std::mem::swap(&mut entries, &mut self.entries);
        let ghost keys = stored_keys(entries@);
        let (_, value) = entries.remove(at);
        let ghost after = entries@;
        proof {
            let all = stored_keys(after);
            assert(all =~= keys.remove(at as int));
            assert forall|i: int, j: int| 0 <= i < j < all.len() implies before(#[trigger] all[i], #[trigger] all[j]) by {
                let p = if i < at { i } else { i + 1 };
                let q = if j < at { j } else { j + 1 };
                assert(before(keys[p], keys[q]));
            }
        }
        self.entries = entries;
        proof {
            self.lemma_contents();
            let all = stored_keys(after);
            let target = before_call@.remove(key@);
            assert forall|k: Seq<char>| #[trigger] self@.contains_key(k) <==> target.contains_key(k) by {
                if all.contains(k) {
                    let i = choose|i: int| 0 <= i < all.len() && all[i] == k;
                    let p = if i < at { i } else { i + 1 };
                    assert(before_call.entries@[p].0@ == k);
                    crate::text::lemma_before_irreflexive(k);
                    if p < at {
                        assert(before(keys[p], keys[at as int]));
                    } else {
                        assert(before(keys[at as int], keys[p]));
                    }
                }
                if before_call@.contains_key(k) && k != key@ {
                    let p = choose|p: int| 0 <= p < keys.len() && keys[p] == k;
                    let i = if p < at { p } else { p - 1 };
                    assert(all[i] == k);
                }
            }
            assert forall|k: Seq<char>| #[trigger] self@.contains_key(k) implies self@[k] == target[k] by {
                let i = choose|i: int| 0 <= i < all.len() && all[i] == k;
                let p = if i < at { i } else { i + 1 };
                assert(after[i].0@ == k);
                assert(before_call.entries@[p].0@ == k);
                assert(before_call.entries@[p] == after[i]);
            }
            assert(self@ =~= target);
        }
        Some(value)
    }
}

impl<V: Value> Value for TextMap<V> {
    fn copied(&self) -> (result: Self) {
        proof {
            use_type_invariant(self);
            self.lemma_contents();
        }
        let mut entries: Vec<(String, V)> = Vec::new();
        let mut i: usize = 0;
        while i < self.entries.len()
            invariant
                i <= self.entries@.len(),
                entries@.len() == i,
                forall|j: int|
                    0 <= j < i ==> {
                        &&& (#[trigger] entries@[j]).0@ == self.entries@[j].0@
                        &&& entries@[j].1.deep_view() == self.entries@[j].1.deep_view()
                    },
            decreases self.entries@.len() - i,
        {
            entries.push((self.entries[i].0.clone(), self.entries[i].1.copied()));
            i += 1;
        }
        assert(stored_keys(entries@) =~= stored_keys(self.entries@));
        let result = TextMap { entries };
        proof {
            result.lemma_contents();
            assert forall|k: Seq<char>| #[trigger] result@.contains_key(k) implies result@[k] == self@[k] by {
                let keys = stored_keys(result.entries@);
                let j = choose|j: int| 0 <= j < keys.len() && keys[j] == k;
                assert(result.entries@[j].0@ == k);
                assert(self.entries@[j].0@ == k);
            }
            assert(result@ =~= self@);
        }
        result
    }

    fn same(&self, other: &Self) -> (result: bool) {
        proof {
            use_type_invariant(self);
            use_type_invariant(other);
            self.lemma_contents();
            other.lemma_contents();
        }
        if self.entries.len() != other.entries.len() {
            return false;
        }
        let mut i: usize = 0;
        while i < self.entries.len()
            invariant
                i <= self.entries@.len(),
                self.entries@.len() == other.entries@.len(),
                lists(stored_keys(self.entries@), self@.dom()),
                keys_of(self@) == stored_keys(self.entries@),
                keys_of(other@) == stored_keys(other.entries@),
                forall|j: int|
                    0 <= j < self.entries@.len() ==> {
                        &&& self@.contains_key(#[trigger] self.entries@[j].0@)
                        &&& self@[self.entries@[j].0@] == self.entries@[j].1.deep_view()
                    },
                forall|j: int|
                    0 <= j < other.entries@.len() ==> {
                        &&& other@.contains_key(#[trigger] other.entries@[j].0@)
                        &&& other@[other.entries@[j].0@] == other.entries@[j].1.deep_view()
                    },
                forall|j: int|
                    0 <= j < i ==> {
                        &&& (#[trigger] self.entries@[j]).0@ == other.entries@[j].0@
                        &&& self.entries@[j].1.deep_view() == other.entries@[j].1.deep_view()
                    },
            decreases self.entries@.len() - i,
        {
            let ghost mine = self.entries@[i as int];
            let ghost theirs = other.entries@[i as int];
            assert(self@.contains_key(mine.0@) && other@.contains_key(theirs.0@));
            assert(keys_of(self@)[i as int] == mine.0@);
            assert(keys_of(other@)[i as int] == theirs.0@);
            if !crate::text::same_text(self.entries[i].0.as_str(), other.entries[i].0.as_str()) {
                return false;
            }
            if !self.entries[i].1.same(&other.entries[i].1) {
                return false;
            }
            i += 1;
        }
        proof {
            assert(stored_keys(self.entries@) =~= stored_keys(other.entries@));
            assert forall|k: Seq<char>| #[trigger] self@.contains_key(k) implies self@[k] == other@[k] by {
                let keys = stored_keys(self.entries@);
                let j = choose|j: int| 0 <= j < keys.len() && keys[j] == k;
                assert(self.entries@[j].0@ == k);
                assert(other.entries@[j].0@ == k);
            }
            assert(self@ =~= other@);
        }
        true
    }
}

impl<V: Value> Clone for TextMap<V> {
    fn clone(&self) -> (result: Self)
        ensures
            result@ == self@,
    {
        self.copied()
    }
}

impl<V: Value> PartialEq for TextMap<V> {
    fn eq(&self, other: &Self) -> (result: bool) {
        self.same(other)
    }
}

impl<V: Value> vstd::std_specs::cmp::PartialEqSpecImpl for TextMap<V> {
    open spec fn obeys_eq_spec() -> bool {
        true
    }

    open spec fn eq_spec(&self, other: &Self) -> bool {
        self@ == other@
    }
}

impl<V: Value> Default for TextMap<V> {
    fn default() -> (result: Self)
        ensures
            result@ == Map::<Seq<char>, V::V>::empty(),
    {
        TextMap::new()
    }
}

// Sets

/// A set of texts, stored in order.
#[derive(Debug)]
pub struct TextSet {
    members: TextMap<bool>,
}

impl Value for bool {
    fn copied(&self) -> (result: Self) {
        *self
    }

    fn same(&self, other: &Self) -> (result: bool) {
        *self == *other
    }
}

impl Value for u64 {
    fn copied(&self) -> (result: Self) {
        *self
    }

    fn same(&self, other: &Self) -> (result: bool) {
        *self == *other
    }
}

impl TextSet {
    #[verifier::type_invariant]
    spec fn uniform(self) -> bool {
        forall|k: Seq<char>| #[trigger] self.members@.contains_key(k) ==> self.members@[k]
    }

    pub closed spec fn contents(self) -> Set<Seq<char>> {
        self.members@.dom()
    }
}

impl View for TextSet {
    type V = Set<Seq<char>>;

    open spec fn view(&self) -> Self::V {
        self.contents()
    }
}

impl DeepView for TextSet {
    type V = Set<Seq<char>>;

    open spec fn deep_view(&self) -> Self::V {
        self.contents()
    }
}

impl TextSet {
    /// The empty set.
    pub fn new() -> (result: Self)
        ensures
            result@ == Set::<Seq<char>>::empty(),
    {
        let members: TextMap<bool> = TextMap::new();
        let result = TextSet { members };
        assert(result@ =~= Set::<Seq<char>>::empty());
        result
    }

    pub fn len(&self) -> (n: usize)
        ensures
            self@.finite(),
            n == self@.len(),
            n == ordered(self@).len(),
            lists(ordered(self@), self@),
    {
        self.members.len()
    }

    pub fn is_empty(&self) -> (result: bool)
        ensures
            result == (self@ == Set::<Seq<char>>::empty()),
    {
        self.members.is_empty()
    }

    pub fn contains(&self, key: &str) -> (result: bool)
        ensures
            result == self@.contains(key@),
    {
        self.members.contains_key(key)
    }

    /// The member at a position of the order.
    pub fn at(&self, i: usize) -> (key: &String)
        requires
            i < self@.len(),
        ensures
            key@ == ordered(self@)[i as int],
            self@.contains(key@),
    {
        self.members.key_at(i)
    }

    /// Add a member; says whether it was new.
    pub fn insert(&mut self, key: String) -> (fresh: bool)
        ensures
            final(self)@ == old(self)@.insert(key@),
            fresh == !old(self)@.contains(key@),
    {
        proof {
            use_type_invariant(&*self);
        }
        let fresh = !self.contains(key.as_str());
        let ghost name = key@;
        let mut members: TextMap<bool> = TextMap::new();
        std::mem::swap(&mut members, &mut self.members);
        members.insert(key, true);
        self.members = members;
        assert(self@ =~= old(self)@.insert(name));
        fresh
    }

    /// Take a member out; says whether it was there.
    pub fn remove(&mut self, key: &str) -> (found: bool)
        ensures
            final(self)@ == old(self)@.remove(key@),
            found == old(self)@.contains(key@),
    {
        proof {
            use_type_invariant(&*self);
        }
        let mut members: TextMap<bool> = TextMap::new();
        std::mem::swap(&mut members, &mut self.members);
        let found = members.remove(key);
        self.members = members;
        assert(self@ =~= old(self)@.remove(key@));
        match found {
            Some(_) => true,
            None => false,
        }
    }

    /// Add every member of `other`.
    pub fn extend(&mut self, other: &TextSet)
        ensures
            final(self)@ == old(self)@.union(other@),
    {
        let n = other.len();
        let mut i: usize = 0;
        let ghost keys = ordered(other@);
        while i < n
            invariant
                i <= n,
                n == other@.len(),
                keys == ordered(other@),
                keys.len() == n,
                lists(keys, other@),
                forall|k: Seq<char>|
                    #[trigger] self@.contains(k) <==> old(self)@.contains(k) || keys.take(i as int).contains(k),
            decreases n - i,
        {
            let ghost so_far = self@;
            self.insert(other.at(i).clone());
            proof {
                assert(keys.take(i + 1) =~= keys.take(i as int).push(keys[i as int]));
                assert forall|k: Seq<char>|
                    #[trigger] self@.contains(k) <==> old(self)@.contains(k) || keys.take(i + 1).contains(k) by {
                    assert(so_far.contains(k) <==> old(self)@.contains(k) || keys.take(i as int).contains(k));
                    lemma_push_contains(keys.take(i as int), keys[i as int], k);
                }
            }
            i += 1;
        }
        proof {
            assert(keys.take(n as int) =~= keys);
            assert(self@ =~= old(self)@.union(other@));
        }
    }

    /// The members that `other` lacks.
    pub fn difference(&self, other: &TextSet) -> (result: TextSet)
        ensures
            result@ == self@.difference(other@),
    {
        let mut result = TextSet::new();
        let n = self.len();
        let mut i: usize = 0;
        let ghost keys = ordered(self@);
        while i < n
            invariant
                i <= n,
                n == self@.len(),
                keys == ordered(self@),
                keys.len() == n,
                lists(keys, self@),
                forall|k: Seq<char>|
                    #[trigger] result@.contains(k) <==> keys.take(i as int).contains(k) && !other@.contains(k),
            decreases n - i,
        {
            let ghost so_far = result@;
            let key = self.at(i);
            if !other.contains(key.as_str()) {
                result.insert(key.clone());
            }
            proof {
                assert(keys.take(i + 1) =~= keys.take(i as int).push(keys[i as int]));
                assert forall|k: Seq<char>|
                    #[trigger] result@.contains(k) <==> keys.take(i + 1).contains(k) && !other@.contains(k) by {
                    assert(so_far.contains(k) <==> keys.take(i as int).contains(k) && !other@.contains(k));
                    lemma_push_contains(keys.take(i as int), keys[i as int], k);
                }
            }
            i += 1;
        }
        proof {
            assert(keys.take(n as int) =~= keys);
            assert(result@ =~= self@.difference(other@));
        }
        result
    }
}

impl TextSet {
    /// The members, in order.
    pub fn to_vec(&self) -> (result: Vec<String>)
        ensures
            crate::text::texts(result@) == ordered(self@),
    {
        let n = self.len();
        let ghost keys = ordered(self@);
        let mut result: Vec<String> = Vec::new();
        let mut i: usize = 0;
        while i < n
            invariant
                i <= n,
                n == self@.len(),
                keys == ordered(self@),
                keys.len() == n,
                crate::text::texts(result@) == keys.take(i as int),
            decreases n - i,
        {
            let ghost so_far = crate::text::texts(result@);
            result.push(self.at(i).clone());
            assert(crate::text::texts(result@) =~= so_far.push(keys[i as int]));
            assert(keys.take(i + 1) =~= keys.take(i as int).push(keys[i as int]));
            i += 1;
        }
        assert(keys.take(n as int) =~= keys);
        result
    }
}

impl<V: DeepView> TextMap<V> {
    /// The keys of the map.
    pub fn keys(&self) -> (result: TextSet)
        ensures
            result@ == self@.dom(),
    {
        let n = self.len();
        let ghost keys = keys_of(self@);
        let mut result = TextSet::new();
        let mut i: usize = 0;
        while i < n
            invariant
                i <= n,
                n == self@.dom().len(),
                keys == keys_of(self@),
                keys.len() == n,
                lists(keys, self@.dom()),
                forall|k: Seq<char>| #[trigger] result@.contains(k) <==> keys.take(i as int).contains(k),
            decreases n - i,
        {
            let ghost so_far = result@;
            result.insert(self.key_at(i).clone());
            proof {
                assert(keys.take(i + 1) =~= keys.take(i as int).push(keys[i as int]));
                assert forall|k: Seq<char>| #[trigger] result@.contains(k) <==> keys.take(i + 1).contains(k) by {
                    assert(so_far.contains(k) <==> keys.take(i as int).contains(k));
                    lemma_push_contains(keys.take(i as int), keys[i as int], k);
                }
            }
            i += 1;
        }
        proof {
            assert(keys.take(n as int) =~= keys);
            assert forall|k: Seq<char>| result@.contains(k) <==> self@.dom().contains(k) by {}
            assert(result@ =~= self@.dom());
        }
        result
    }
}

/// What `push` adds to the members of a sequence.
pub proof fn lemma_push_contains(keys: Seq<Seq<char>>, last: Seq<char>, k: Seq<char>)
    ensures
        keys.push(last).contains(k) <==> keys.contains(k) || k == last,
{
    let all = keys.push(last);
    if keys.contains(k) {
        let i = choose|i: int| 0 <= i < keys.len() && keys[i] == k;
        assert(all[i] == k);
    }
    assert(all[keys.len() as int] == last);
    if all.contains(k) {
        let i = choose|i: int| 0 <= i < all.len() && all[i] == k;
        if i < keys.len() {
            assert(keys[i] == k);
        }
    }
}

impl Value for TextSet {
    fn copied(&self) -> (result: Self) {
        proof {
            use_type_invariant(self);
        }
        let members = self.members.copied();
        assert(members@ == self.members@);
        TextSet { members }
    }

    fn same(&self, other: &Self) -> (result: bool) {
        proof {
            use_type_invariant(self);
            use_type_invariant(other);
            if self@ == other@ {
                assert(self.members@ =~= other.members@);
            }
        }
        self.members.same(&other.members)
    }
}

impl Clone for TextSet {
    fn clone(&self) -> (result: Self)
        ensures
            result@ == self@,
    {
        self.copied()
    }
}

impl PartialEq for TextSet {
    fn eq(&self, other: &Self) -> (result: bool) {
        self.same(other)
    }
}

impl vstd::std_specs::cmp::PartialEqSpecImpl for TextSet {
    open spec fn obeys_eq_spec() -> bool {
        true
    }

    open spec fn eq_spec(&self, other: &Self) -> bool {
        self@ == other@
    }
}

impl Default for TextSet {
    fn default() -> (result: Self)
        ensures
            result@ == Set::<Seq<char>>::empty(),
    {
        TextSet::new()
    }
}

} // verus!
