//! A map from text to values that keeps its keys in order.
use vstd::prelude::*;
use crate::order;
use crate::text;

verus! {

/// How the keys of a map are ordered.
#[derive(Clone, Copy, Debug, PartialEq, Eq, Structural)]
pub enum KeyOrder {
    /// By bytes, as strings compare.
    Bytes,
    /// By components, as paths compare: the root, `.` and `..` come before names.
    Path,
}

/// The separator of path components.
pub const SEP: u8 = 47;

/// Whether key `a` comes before key `b`.
pub open spec fn before(order: KeyOrder, a: Seq<u8>, b: Seq<u8>) -> bool {
    match order {
        KeyOrder::Bytes => order::bytes_before(a, b),
        KeyOrder::Path => order::path_before(a, b),
    }
}

/// No key comes before itself.
pub proof fn lemma_before_irreflexive(order: KeyOrder, a: Seq<u8>)
    ensures
        !before(order, a, a),
{
    order::lemma_bytes_irreflexive(a);
    order::lemma_path_irreflexive(a);
}

/// The order of keys is transitive.
pub proof fn lemma_before_transitive(order: KeyOrder, a: Seq<u8>, b: Seq<u8>, c: Seq<u8>)
    requires
        before(order, a, b),
        before(order, b, c),
    ensures
        before(order, a, c),
{
    match order {
        KeyOrder::Bytes => order::lemma_bytes_transitive(a, b, c),
        KeyOrder::Path => order::lemma_path_transitive(a, b, c),
    }
}

/// Of two different keys one comes before the other, and never both.
pub proof fn lemma_before_total(order: KeyOrder, a: Seq<u8>, b: Seq<u8>)
    ensures
        a != b ==> before(order, a, b) || before(order, b, a),
        !(before(order, a, b) && before(order, b, a)),
{
    order::lemma_bytes_total(a, b);
    order::lemma_path_total(a, b);
}

/// Compare two keys.
pub fn is_before(order: KeyOrder, a: &str, b: &str) -> (r: bool)
    ensures
        r == before(order, text::utf8(a@), text::utf8(b@)),
{
    match order {
        KeyOrder::Bytes => order::is_bytes_before(a, b),
        KeyOrder::Path => order::is_path_before(a, b),
    }
}

/// A map that keeps its keys in order.
#[derive(Debug, PartialEq, Eq)]
pub struct SortedMap<V> {
    order: KeyOrder,
    entries: Vec<(String, V)>,
}

/// The key of an entry.
pub closed spec fn key_of<V>(entry: (String, V)) -> Seq<u8> {
    text::utf8(entry.0@)
}

/// Keys that stand in strictly ascending order.
pub open spec fn ascending(order: KeyOrder, keys: Seq<Seq<u8>>) -> bool {
    forall|i: int, j: int|
        0 <= i < j < keys.len() ==> before(order, #[trigger] keys[i], #[trigger] keys[j])
}

impl<V> SortedMap<V> {
    /// How the keys are ordered.
    pub closed spec fn order(self) -> KeyOrder {
        self.order
    }

    /// The keys, in order.
    pub closed spec fn keys(self) -> Seq<Seq<u8>> {
        self.entries@.map_values(|e: (String, V)| key_of(e))
    }

    /// The values, in the order of their keys.
    pub closed spec fn values(self) -> Seq<V> {
        self.entries@.map_values(|e: (String, V)| e.1)
    }

    #[verifier::type_invariant]
    spec fn in_order(self) -> bool {
        ascending(self.order, self.keys())
    }

    /// The map from keys to values.
    pub open spec fn spec_map(self) -> Map<Seq<u8>, V> {
        Map::new(
            |k: Seq<u8>| self.keys().contains(k),
            |k: Seq<u8>| self.values()[self.keys().index_of(k)],
        )
    }
}

impl<V> View for SortedMap<V> {
    type V = Map<Seq<u8>, V>;

    open spec fn view(&self) -> Map<Seq<u8>, V> {
        self.spec_map()
    }
}

impl<V: Clone> Clone for SortedMap<V> {
    fn clone(&self) -> (r: SortedMap<V>)
        ensures
            r.order() == self.order(),
            r.keys() == self.keys(),
            forall|i: int|
                0 <= i < self.keys().len() ==> cloned(
                    #[trigger] self.values()[i],
                    r.values()[i],
                ),
    {
        proof {
            use_type_invariant(self);
        }
        let mut entries: Vec<(String, V)> = Vec::new();
        let mut i: usize = 0;
        while i < self.entries.len()
            invariant
                i <= self.entries@.len(),
                entries@.len() == i,
                forall|j: int|
                    0 <= j < i ==> key_of(#[trigger] entries@[j]) == key_of(self.entries@[j])
                        && cloned(self.entries@[j].1, entries@[j].1),
            decreases self.entries@.len() - i,
        {
            let key = text::owned(self.entries[i].0.as_str());
            let value = self.entries[i].1.clone();
            entries.push((key, value));
            i += 1;
        }
        assert(entries@.map_values(|e: (String, V)| key_of(e)) =~= self.keys());
        SortedMap { order: self.order, entries }
    }
}

impl<V> SortedMap<V> {
    /// A map without entries.
    pub fn new(order: KeyOrder) -> (m: SortedMap<V>)
        ensures
            m.order() == order,
            m.keys() == Seq::<Seq<u8>>::empty(),
            m@ == Map::<Seq<u8>, V>::empty(),
    {
        let m = SortedMap { order, entries: Vec::new() };
        assert(m.keys() =~= Seq::<Seq<u8>>::empty());
        assert(m@ =~= Map::<Seq<u8>, V>::empty());
        m
    }

    /// The number of entries.
    pub fn len(&self) -> (n: usize)
        ensures
            n == self.keys().len(),
            n == self.values().len(),
    {
        self.entries.len()
    }

    /// Whether there is no entry.
    pub fn is_empty(&self) -> (r: bool)
        ensures
            r == (self.keys().len() == 0),
    {
        self.entries.len() == 0
    }

    /// The `i`th key.
    pub fn key_at(&self, i: usize) -> (k: &str)
        requires
            i < self.keys().len(),
        ensures
            text::utf8(k@) == self.keys()[i as int],
    {
        self.entries[i].0.as_str()
    }

    /// The value of the `i`th key.
    pub fn value_at(&self, i: usize) -> (v: &V)
        requires
            i < self.keys().len(),
        ensures
            *v == self.values()[i as int],
            self.values().len() == self.keys().len(),
            self@.contains_key(self.keys()[i as int]),
            *v == self@[self.keys()[i as int]],
    {
        proof {
            use_type_invariant(self);
            lemma_at(self.order, self.keys(), i as int);
        }
        &self.entries[i].1
    }

    /// What the type keeps of its keys: they ascend, so no key occurs twice.
    pub fn keys_ascend(&self)
        ensures
            ascending(self.order(), self.keys()),
            self.keys().no_duplicates(),
            self.values().len() == self.keys().len(),
            forall|k: Seq<u8>| #[trigger] self.keys().contains(k) <==> self@.contains_key(k),
    {
        proof {
            use_type_invariant(self);
            lemma_ascending_distinct(self.order, self.keys());
        }
    }

    /// The place of a key: the number of keys before it.
    fn seek(&self, key: &str) -> (r: (usize, bool))
        ensures
            r.0 <= self.entries@.len(),
            forall|i: int|
                0 <= i < r.0 ==> before(
                    self.order,
                    #[trigger] self.keys()[i],
                    text::utf8(key@),
                ),
            r.1 ==> r.0 < self.entries@.len() && self.keys()[r.0 as int] == text::utf8(key@),
            !r.1 ==> forall|i: int|
                r.0 <= i < self.entries@.len() ==> before(
                    self.order,
                    text::utf8(key@),
                    #[trigger] self.keys()[i],
                ),
    {
        proof {
            use_type_invariant(self);
        }
        let ghost k = text::utf8(key@);
        let mut i: usize = 0;
        while i < self.entries.len()
            invariant
                i <= self.entries@.len(),
                self.keys().len() == self.entries@.len(),
                ascending(self.order, self.keys()),
                k == text::utf8(key@),
                forall|j: int| 0 <= j < i ==> before(self.order, #[trigger] self.keys()[j], k),
            decreases self.entries@.len() - i,
        {
            let here = self.entries[i].0.as_str();
            assert(self.keys()[i as int] == text::utf8(here@));
            if text::same(here, key) {
                return (i, true);
            }
            if !is_before(self.order, here, key) {
                proof {
                    lemma_before_total(self.order, self.keys()[i as int], k);
                    assert forall|j: int| i <= j < self.entries@.len() implies before(
                        self.order,
                        k,
                        #[trigger] self.keys()[j],
                    ) by {
                        if j > i {
                            lemma_before_transitive(
                                self.order,
                                k,
                                self.keys()[i as int],
                                self.keys()[j],
                            );
                        }
                    }
                }
                return (i, false);
            }
            i += 1;
        }
        (i, false)
    }

    /// The value of a key.
    pub fn get(&self, key: &str) -> (r: Option<&V>)
        ensures
            match r {
                Some(v) => self@.contains_key(text::utf8(key@)) && *v == self@[text::utf8(key@)],
                None => !self@.contains_key(text::utf8(key@)),
            },
    {
        let (i, found) = self.seek(key);
        proof {
            use_type_invariant(self);
            if found {
                lemma_at(self.order, self.keys(), i as int);
            } else {
                lemma_absent(self.order, self.keys(), text::utf8(key@), i as int);
            }
        }
        if found {
            Some(&self.entries[i].1)
        } else {
            None
        }
    }

    /// The place of a key among the keys.
    pub fn position(&self, key: &str) -> (r: Option<usize>)
        ensures
            match r {
                Some(i) => i < self.keys().len() && self.keys()[i as int] == text::utf8(key@),
                None => !self.keys().contains(text::utf8(key@)),
            },
            r is Some == self@.contains_key(text::utf8(key@)),
    {
        let (i, found) = self.seek(key);
        proof {
            use_type_invariant(self);
            if found {
                lemma_at(self.order, self.keys(), i as int);
            } else {
                lemma_absent(self.order, self.keys(), text::utf8(key@), i as int);
            }
        }
        if found {
            Some(i)
        } else {
            None
        }
    }

    /// Whether a key is there.
    pub fn contains_key(&self, key: &str) -> (r: bool)
        ensures
            r == self@.contains_key(text::utf8(key@)),
    {
        self.get(key).is_some()
    }

    /// Give a key a value.
    pub fn insert(&mut self, key: String, value: V)
        ensures
            final(self)@ == old(self)@.insert(text::utf8(key@), value),
            final(self).order() == old(self).order(),
    {
        let (i, found) = self.seek(key.as_str());
        let order = self.order;
        let ghost k = text::utf8(key@);
        let ghost old_keys = self.keys();
        let ghost old_values = self.values();
        let ghost old_map = self@;
        proof {
            use_type_invariant(&*self);
        }
        let mut entries: Vec<(String, V)> = Vec::new();
        std::mem::swap(&mut entries, &mut self.entries);
        let ghost before_entries = entries@;
        if found {
            entries.set(i, (key, value));
            proof {
                let new_keys = entries@.map_values(|e: (String, V)| key_of(e));
                assert(new_keys =~= old_keys);
            }
        } else {
            entries.insert(i, (key, value));
            proof {
                lemma_absent(order, old_keys, k, i as int);
                let new_keys = entries@.map_values(|e: (String, V)| key_of(e));
                assert(new_keys =~= old_keys.insert(i as int, k));
                assert(ascending(order, new_keys));
            }
        }
        self.entries = entries;
        proof {
            let m = *self;
            assert(m.values() =~= (if found {
                old_values.update(i as int, value)
            } else {
                old_values.insert(i as int, value)
            }));
            lemma_insert(order, old_keys, old_values, m.keys(), m.values(), k, value, i as int, found);
            assert(m@ =~= old_map.insert(k, value));
        }
    }

    /// The entries, in the order of the keys.
    pub fn into_entries(self) -> (r: Vec<(String, V)>)
        ensures
            r@.len() == self.keys().len(),
            forall|i: int|
                0 <= i < r@.len() ==> text::utf8((#[trigger] r@[i]).0@) == self.keys()[i]
                    && r@[i].1 == self.values()[i],
    {
        self.entries
    }

    /// Take a key out.
    pub fn remove(&mut self, key: &str) -> (r: Option<V>)
        ensures
            final(self)@ == old(self)@.remove(text::utf8(key@)),
            final(self).order() == old(self).order(),
            match r {
                Some(v) => old(self)@.contains_key(text::utf8(key@)) && v == old(
                    self,
                )@[text::utf8(key@)],
                None => !old(self)@.contains_key(text::utf8(key@)),
            },
    {
        let (i, found) = self.seek(key);
        let ghost k = text::utf8(key@);
        let ghost old_keys = self.keys();
        let ghost old_values = self.values();
        let ghost old_map = self@;
        proof {
            use_type_invariant(&*self);
        }
        if !found {
            proof {
                lemma_absent(self.order, self.keys(), k, i as int);
                assert(self@.remove(k) =~= self@);
            }
            return None;
        }
        let mut entries: Vec<(String, V)> = Vec::new();
        std::mem::swap(&mut entries, &mut self.entries);
        let (_, v) = entries.remove(i);
        proof {
            let new_keys = entries@.map_values(|e: (String, V)| key_of(e));
            assert(new_keys =~= old_keys.remove(i as int));
            assert(ascending(self.order, new_keys));
        }
        self.entries = entries;
        proof {
            let m = *self;
            assert(m.values() =~= old_values.remove(i as int));
            lemma_remove(m.order, old_keys, old_values, m.keys(), m.values(), k, i as int);
            assert(m@ =~= old_map.remove(k));
        }
        Some(v)
    }
}

/// Whether a list holds the keys of a map in order.
pub open spec fn is_key_list<V>(
    order: KeyOrder,
    keys: Seq<Seq<u8>>,
    map: Map<Seq<u8>, V>,
) -> bool {
    &&& ascending(order, keys)
    &&& forall|k: Seq<u8>| #[trigger] keys.contains(k) <==> map.contains_key(k)
}

/// The keys of a map, in order.
pub open spec fn keys_of<V>(order: KeyOrder, map: Map<Seq<u8>, V>) -> Seq<Seq<u8>> {
    choose|s: Seq<Seq<u8>>| is_key_list(order, s, map)
}

/// There is one way to write down keys in order.
pub proof fn lemma_keys_unique(order: KeyOrder, a: Seq<Seq<u8>>, b: Seq<Seq<u8>>)
    requires
        ascending(order, a),
        ascending(order, b),
        forall|k: Seq<u8>| #[trigger] a.contains(k) <==> b.contains(k),
    ensures
        a == b,
    decreases a.len(),
{
    if a.len() == 0 {
        if b.len() > 0 {
            assert(b.contains(b[0]));
            assert(a.contains(b[0]));
        }
        assert(a =~= b);
    } else {
        assert(a.contains(a[0]));
        assert(b.contains(a[0]));
        assert(b.contains(b[0]));
        assert(a.contains(b[0]));
        let j = b.index_of(a[0]);
        let i = a.index_of(b[0]);
        if a[0] != b[0] {
            assert(before(order, a[0], a[i]));
            assert(before(order, b[0], b[j]));
            lemma_before_transitive(order, a[0], b[0], a[0]);
            lemma_before_irreflexive(order, a[0]);
        }
        let x = a.drop_first();
        let y = b.drop_first();
        lemma_ascending_distinct(order, a);
        lemma_ascending_distinct(order, b);
        assert forall|k: Seq<u8>| #[trigger] x.contains(k) <==> y.contains(k) by {
            if x.contains(k) {
                let n = x.index_of(k);
                assert(a[n + 1] == k);
                assert(a.contains(k));
                let m = b.index_of(k);
                assert(m > 0);
                assert(y[m - 1] == k);
            }
            if y.contains(k) {
                let n = y.index_of(k);
                assert(b[n + 1] == k);
                assert(b.contains(k));
                assert(a.contains(k));
                let m = a.index_of(k);
                assert(m > 0);
                assert(x[m - 1] == k);
            }
        }
        assert forall|n: int, m: int| 0 <= n < m < x.len() implies before(
            order,
            #[trigger] x[n],
            #[trigger] x[m],
        ) by {
            assert(before(order, a[n + 1], a[m + 1]));
        }
        assert forall|n: int, m: int| 0 <= n < m < y.len() implies before(
            order,
            #[trigger] y[n],
            #[trigger] y[m],
        ) by {
            assert(before(order, b[n + 1], b[m + 1]));
        }
        lemma_keys_unique(order, x, y);
        assert(a =~= seq![a[0]] + x);
        assert(b =~= seq![b[0]] + y);
    }
}

/// Keys in order are the keys of the map that holds them.
pub proof fn lemma_keys_of<V>(order: KeyOrder, keys: Seq<Seq<u8>>, map: Map<Seq<u8>, V>)
    requires
        is_key_list(order, keys, map),
    ensures
        keys_of(order, map) == keys,
{
    let s = keys_of(order, map);
    assert(is_key_list(order, s, map));
    lemma_keys_unique(order, s, keys);
}

/// The number of keys in front of a key.
spec fn rank_in(order: KeyOrder, keys: Seq<Seq<u8>>, k: Seq<u8>) -> int
    decreases keys.len(),
{
    if keys.len() == 0 {
        0
    } else if before(order, keys.last(), k) {
        keys.len() as int
    } else {
        rank_in(order, keys.drop_last(), k)
    }
}

proof fn lemma_rank_in(order: KeyOrder, keys: Seq<Seq<u8>>, k: Seq<u8>)
    requires
        ascending(order, keys),
        !keys.contains(k),
    ensures
        0 <= rank_in(order, keys, k) <= keys.len(),
        ascending(order, keys.insert(rank_in(order, keys, k), k)),
        forall|x: Seq<u8>| #[trigger]
            keys.insert(rank_in(order, keys, k), k).contains(x) <==> (x == k || keys.contains(x)),
        rank_in(order, keys, k) > 0 ==> before(order, keys[rank_in(order, keys, k) - 1], k),
        rank_in(order, keys, k) < keys.len() ==> before(order, k, keys[rank_in(order, keys, k)]),
    decreases keys.len(),
{
    let p = rank_in(order, keys, k);
    if keys.len() > 0 {
        assert(keys.contains(keys.last())) by {
            assert(keys[keys.len() - 1] == keys.last());
        }
        lemma_before_total(order, keys.last(), k);
        if !before(order, keys.last(), k) {
            let rest = keys.drop_last();
            assert(!rest.contains(k)) by {
                if rest.contains(k) {
                    assert(keys[rest.index_of(k)] == k);
                }
            }
            lemma_rank_in(order, rest, k);
            if p == rest.len() {
                assert(keys[p] == keys.last());
            } else {
                assert(rest[p] == keys[p]);
            }
        }
    }
    let r = keys.insert(p, k);
    assert forall|i: int, j: int| 0 <= i < j < r.len() implies before(
        order,
        #[trigger] r[i],
        #[trigger] r[j],
    ) by {
        if j == p {
            if i < p - 1 {
                lemma_before_transitive(order, keys[i], keys[p - 1], k);
            }
        } else if i == p {
            if j > p + 1 {
                lemma_before_transitive(order, k, keys[p], keys[j - 1]);
            }
        }
    }
    assert forall|x: Seq<u8>| #[trigger] r.contains(x) <==> (x == k || keys.contains(x)) by {
        if keys.contains(x) {
            let n = keys.index_of(x);
            if n < p {
                assert(r[n] == x);
            } else {
                assert(r[n + 1] == x);
            }
        }
        if x == k {
            assert(r[p] == x);
        }
        if r.contains(x) && x != k {
            let n = r.index_of(x);
            if n < p {
                assert(keys[n] == x);
            } else {
                assert(keys[n - 1] == x);
            }
        }
    }
}

/// The keys of a finite map can be listed in order.
pub proof fn lemma_keys_listed<V>(order: KeyOrder, map: Map<Seq<u8>, V>)
    requires
        map.dom().finite(),
    ensures
        is_key_list(order, keys_of(order, map), map),
    decreases map.dom().len(),
{
    if map.dom().len() == 0 {
        let none = Seq::<Seq<u8>>::empty();
        assert forall|k: Seq<u8>| #[trigger] none.contains(k) <==> map.contains_key(k) by {
            if map.contains_key(k) {
                assert(map.dom().contains(k));
            }
        }
        assert(is_key_list(order, none, map));
        lemma_keys_of(order, none, map);
    } else {
        let k = map.dom().choose();
        let rest = map.remove(k);
        lemma_keys_listed(order, rest);
        let keys = keys_of(order, rest);
        assert(!keys.contains(k));
        lemma_rank_in(order, keys, k);
        let r = keys.insert(rank_in(order, keys, k), k);
        assert forall|x: Seq<u8>| #[trigger] r.contains(x) <==> map.contains_key(x) by {
            assert(keys.contains(x) <==> rest.contains_key(x));
        }
        assert(is_key_list(order, r, map));
        lemma_keys_of(order, r, map);
    }
}

/// There are as many values as keys.
pub broadcast proof fn lemma_values_len<V>(m: SortedMap<V>)
    ensures
        #[trigger] m.values().len() == m.keys().len(),
{
}

/// A map has finitely many keys.
pub proof fn lemma_finite<V>(m: SortedMap<V>)
    ensures
        m@.dom().finite(),
{
    vstd::seq_lib::seq_to_set_is_finite(m.keys());
    assert(m@.dom() =~= m.keys().to_set());
}

/// Keys in order are all different.
pub proof fn lemma_ascending_distinct(order: KeyOrder, keys: Seq<Seq<u8>>)
    requires
        ascending(order, keys),
    ensures
        keys.no_duplicates(),
{
    assert forall|i: int, j: int| 0 <= i < keys.len() && 0 <= j < keys.len() && i != j implies keys[i]
        != keys[j] by {
        lemma_before_irreflexive(order, keys[i]);
        if i < j {
            assert(before(order, keys[i], keys[j]));
        } else {
            assert(before(order, keys[j], keys[i]));
        }
    }
}

proof fn lemma_at(order: KeyOrder, keys: Seq<Seq<u8>>, i: int)
    requires
        ascending(order, keys),
        0 <= i < keys.len(),
    ensures
        keys.contains(keys[i]),
        keys.index_of(keys[i]) == i,
{
    lemma_ascending_distinct(order, keys);
}

proof fn lemma_absent(order: KeyOrder, keys: Seq<Seq<u8>>, k: Seq<u8>, i: int)
    requires
        0 <= i <= keys.len(),
        forall|j: int| 0 <= j < i ==> before(order, #[trigger] keys[j], k),
        forall|j: int| i <= j < keys.len() ==> before(order, k, #[trigger] keys[j]),
    ensures
        !keys.contains(k),
{
    lemma_before_irreflexive(order, k);
}

proof fn lemma_insert<V>(
    order: KeyOrder,
    keys: Seq<Seq<u8>>,
    values: Seq<V>,
    new_keys: Seq<Seq<u8>>,
    new_values: Seq<V>,
    k: Seq<u8>,
    v: V,
    i: int,
    found: bool,
)
    requires
        ascending(order, keys),
        ascending(order, new_keys),
        keys.len() == values.len(),
        found ==> 0 <= i < keys.len() && keys[i] == k && new_keys == keys && new_values
            == values.update(i, v),
        !found ==> 0 <= i <= keys.len() && !keys.contains(k) && new_keys == keys.insert(i, k)
            && new_values == values.insert(i, v),
    ensures
        forall|x: Seq<u8>| #[trigger] new_keys.contains(x) <==> (x == k || keys.contains(x)),
        new_values[new_keys.index_of(k)] == v,
        forall|x: Seq<u8>| #[trigger]
            keys.contains(x) && x != k ==> new_values[new_keys.index_of(x)]
                == values[keys.index_of(x)],
{
    if found {
        lemma_at(order, keys, i);
        assert forall|x: Seq<u8>| #[trigger] keys.contains(x) && x != k implies new_values[new_keys.index_of(
            x,
        )] == values[keys.index_of(x)] by {
            let j = keys.index_of(x);
            lemma_at(order, keys, j);
        }
    } else {
        assert(new_keys[i] == k);
        lemma_at(order, new_keys, i);
        assert forall|x: Seq<u8>| #[trigger] new_keys.contains(x) <==> (x == k || keys.contains(x)) by {
            if keys.contains(x) {
                let j = keys.index_of(x);
                if j < i {
                    assert(new_keys[j] == x);
                } else {
                    assert(new_keys[j + 1] == x);
                }
            }
            if new_keys.contains(x) && x != k {
                let j = new_keys.index_of(x);
                if j < i {
                    assert(keys[j] == x);
                } else {
                    assert(keys[j - 1] == x);
                }
            }
        }
        assert forall|x: Seq<u8>| #[trigger] keys.contains(x) && x != k implies new_values[new_keys.index_of(
            x,
        )] == values[keys.index_of(x)] by {
            let j = keys.index_of(x);
            lemma_at(order, keys, j);
            if j < i {
                assert(new_keys[j] == x);
                lemma_at(order, new_keys, j);
            } else {
                assert(new_keys[j + 1] == x);
                lemma_at(order, new_keys, j + 1);
            }
        }
    }
}

proof fn lemma_remove<V>(
    order: KeyOrder,
    keys: Seq<Seq<u8>>,
    values: Seq<V>,
    new_keys: Seq<Seq<u8>>,
    new_values: Seq<V>,
    k: Seq<u8>,
    i: int,
)
    requires
        ascending(order, keys),
        ascending(order, new_keys),
        keys.len() == values.len(),
        0 <= i < keys.len(),
        keys[i] == k,
        new_keys == keys.remove(i),
        new_values == values.remove(i),
    ensures
        keys.contains(k),
        values[keys.index_of(k)] == values[i],
        forall|x: Seq<u8>| #[trigger] new_keys.contains(x) <==> (x != k && keys.contains(x)),
        forall|x: Seq<u8>| #[trigger]
            new_keys.contains(x) ==> new_values[new_keys.index_of(x)] == values[keys.index_of(x)],
{
    lemma_at(order, keys, i);
    lemma_ascending_distinct(order, keys);
    assert forall|x: Seq<u8>| #[trigger] new_keys.contains(x) <==> (x != k && keys.contains(x)) by {
        if new_keys.contains(x) {
            let j = new_keys.index_of(x);
            if j < i {
                assert(keys[j] == x);
            } else {
                assert(keys[j + 1] == x);
            }
        }
        if x != k && keys.contains(x) {
            let j = keys.index_of(x);
            if j < i {
                assert(new_keys[j] == x);
            } else {
                assert(new_keys[j - 1] == x);
            }
        }
    }
    assert forall|x: Seq<u8>| #[trigger] new_keys.contains(x) implies new_values[new_keys.index_of(x)]
        == values[keys.index_of(x)] by {
        let j = new_keys.index_of(x);
        lemma_at(order, new_keys, j);
        if j < i {
            assert(keys[j] == x);
            lemma_at(order, keys, j);
        } else {
            assert(keys[j + 1] == x);
            lemma_at(order, keys, j + 1);
        }
    }
}

} // verus!
