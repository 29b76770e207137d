//! A map from paths to values that keeps its keys in order.
use vstd::prelude::*;
use crate::components;
use crate::path;
use crate::sorted;
use crate::sorted::{KeyOrder, SortedMap};
use crate::text;

verus! {

/// A map from paths. Its keys are in normal form, so that every way to write a
/// path finds the same entry.
#[derive(Debug)]
pub struct PathMap<V> {
    inner: SortedMap<V>,
}

/// Whether all keys are in normal form.
pub open spec fn all_normal(keys: Seq<Seq<u8>>) -> bool {
    forall|i: int| 0 <= i < keys.len() ==> path::normal_form(#[trigger] keys[i]) == keys[i]
}

impl<V> PathMap<V> {
    /// Keys are ordered by components.
    pub open spec fn order(self) -> KeyOrder {
        KeyOrder::Path
    }

    /// The keys, in order.
    pub closed spec fn keys(self) -> Seq<Seq<u8>> {
        self.inner.keys()
    }

    /// The values, in the order of their keys.
    pub closed spec fn values(self) -> Seq<V> {
        self.inner.values()
    }

    #[verifier::type_invariant]
    spec fn in_normal_form(self) -> bool {
        self.inner.order() == KeyOrder::Path && all_normal(self.inner.keys())
    }

    /// The map from keys to values.
    pub open spec fn spec_map(self) -> Map<Seq<u8>, V> {
        Map::new(
            |k: Seq<u8>| self.keys().contains(k),
            |k: Seq<u8>| self.values()[self.keys().index_of(k)],
        )
    }
}

impl<V> View for PathMap<V> {
    type V = Map<Seq<u8>, V>;

    open spec fn view(&self) -> Map<Seq<u8>, V> {
        self.spec_map()
    }
}

impl<V> PathMap<V> {
    /// A map without entries.
    pub fn new() -> (m: PathMap<V>)
        ensures
            m.keys() == Seq::<Seq<u8>>::empty(),
            m@ == Map::<Seq<u8>, V>::empty(),
    {
        let inner: SortedMap<V> = SortedMap::new(KeyOrder::Path);
        let m = PathMap { inner };
        assert(m@ =~= Map::<Seq<u8>, V>::empty());
        m
    }

    /// The number of entries.
    pub fn len(&self) -> (n: usize)
        ensures
            n == self.keys().len(),
            n == self.values().len(),
    {
        self.inner.len()
    }

    /// Whether there is no entry.
    pub fn is_empty(&self) -> (r: bool)
        ensures
            r == (self.keys().len() == 0),
    {
        self.inner.is_empty()
    }

    /// The `i`th key.
    pub fn key_at(&self, i: usize) -> (k: &str)
        requires
            i < self.keys().len(),
        ensures
            text::utf8(k@) == self.keys()[i as int],
            path::named(k@) == self.keys()[i as int],
    {
        proof {
            use_type_invariant(self);
        }
        self.inner.key_at(i)
    }

    /// The value of the `i`th key.
    pub fn value_at(&self, i: usize) -> (v: &V)
        requires
            i < self.keys().len(),
        ensures
            *v == self.values()[i as int],
            self.values().len() == self.keys().len(),
            self@.contains_key(self.keys()[i as int]),
            *v == self@[self.keys()[i as int]],
    {
        self.inner.value_at(i)
    }

    /// What the type keeps of its keys: they are in normal form and ascend, so no
    /// path occurs twice.
    pub fn keys_ascend(&self)
        ensures
            sorted::ascending(KeyOrder::Path, self.keys()),
            all_normal(self.keys()),
            self.keys().no_duplicates(),
            self.values().len() == self.keys().len(),
            forall|k: Seq<u8>| #[trigger] self.keys().contains(k) <==> self@.contains_key(k),
            forall|k: Seq<u8>| #[trigger] self@.contains_key(k) ==> path::normal_form(k) == k,
    {
        proof {
            use_type_invariant(self);
        }
        self.inner.keys_ascend();
        assert forall|k: Seq<u8>| #[trigger] self@.contains_key(k) implies path::normal_form(k)
            == k by {
            let i = self.keys().index_of(k);
            assert(self.keys()[i] == k);
        }
    }

    /// The value of a path.
    pub fn get(&self, key: &str) -> (r: Option<&V>)
        ensures
            match r {
                Some(v) => self@.contains_key(path::named(key@)) && *v == self@[path::named(key@)],
                None => !self@.contains_key(path::named(key@)),
            },
    {
        let k = path::normal(key);
        self.inner.get(k.as_str())
    }

    /// The place of a path among the keys.
    pub fn position(&self, key: &str) -> (r: Option<usize>)
        ensures
            match r {
                Some(i) => i < self.keys().len() && self.keys()[i as int] == path::named(key@),
                None => !self.keys().contains(path::named(key@)),
            },
            r is Some == self@.contains_key(path::named(key@)),
    {
        let k = path::normal(key);
        self.inner.position(k.as_str())
    }

    /// Whether a path is there.
    pub fn contains_key(&self, key: &str) -> (r: bool)
        ensures
            r == self@.contains_key(path::named(key@)),
    {
        self.get(key).is_some()
    }

    /// Give a path a value.
    pub fn insert(&mut self, key: String, value: V)
        ensures
            final(self)@ == old(self)@.insert(path::named(key@), value),
    {
        let k = path::normal(key.as_str());
        let ghost name = text::utf8(k@);
        let ghost before = self.inner@;
        assert(self@ =~= self.inner@);
        proof {
            use_type_invariant(&*self);
            components::lemma_normal_form(text::utf8(key@));
        }
        self.inner.keys_ascend();
        let mut inner: SortedMap<V> = SortedMap::new(KeyOrder::Path);
        std::mem::swap(&mut inner, &mut self.inner);
        let ghost old_inner = inner;
        inner.insert(k, value);
        inner.keys_ascend();
        proof {
            assert forall|i: int| 0 <= i < inner.keys().len() implies path::normal_form(
                #[trigger] inner.keys()[i],
            ) == inner.keys()[i] by {
                let x = inner.keys()[i];
                assert(inner.keys().contains(x));
                assert(inner@.contains_key(x));
                if x != name {
                    assert(old_inner@.contains_key(x));
                    assert(old_inner.keys().contains(x));
                    let j = old_inner.keys().index_of(x);
                    assert(old_inner.keys()[j] == x);
                }
            }
        }
        self.inner = inner;
        assert(self@ =~= self.inner@);
    }

    /// The entries, in the order of the keys.
    pub fn into_entries(self) -> (r: Vec<(String, V)>)
        ensures
            r@.len() == self.keys().len(),
            forall|i: int|
                0 <= i < r@.len() ==> text::utf8((#[trigger] r@[i]).0@) == self.keys()[i]
                    && path::named(r@[i].0@) == self.keys()[i] && r@[i].1 == self.values()[i],
    {
        proof {
            use_type_invariant(&self);
        }
        let ghost keys = self.keys();
        let r = self.inner.into_entries();
        assert forall|i: int| 0 <= i < r@.len() implies path::named((#[trigger] r@[i]).0@)
            == keys[i] by {
            assert(text::utf8(r@[i].0@) == keys[i]);
        }
        r
    }

    /// Take a path out.
    pub fn remove(&mut self, key: &str) -> (r: Option<V>)
        ensures
            final(self)@ == old(self)@.remove(path::named(key@)),
            match r {
                Some(v) => old(self)@.contains_key(path::named(key@)) && v == old(
                    self,
                )@[path::named(key@)],
                None => !old(self)@.contains_key(path::named(key@)),
            },
    {
        let k = path::normal(key);
        assert(self@ =~= self.inner@);
        proof {
            use_type_invariant(&*self);
        }
        self.inner.keys_ascend();
        let mut inner: SortedMap<V> = SortedMap::new(KeyOrder::Path);
        std::mem::swap(&mut inner, &mut self.inner);
        let ghost old_inner = inner;
        let r = inner.remove(k.as_str());
        inner.keys_ascend();
        proof {
            assert forall|i: int| 0 <= i < inner.keys().len() implies path::normal_form(
                #[trigger] inner.keys()[i],
            ) == inner.keys()[i] by {
                let x = inner.keys()[i];
                assert(inner.keys().contains(x));
                assert(inner@.contains_key(x));
                assert(old_inner@.contains_key(x));
                assert(old_inner.keys().contains(x));
                let j = old_inner.keys().index_of(x);
                assert(old_inner.keys()[j] == x);
            }
        }
        self.inner = inner;
        assert(self@ =~= self.inner@);
        r
    }
}

/// There are as many values as keys.
pub broadcast proof fn lemma_path_values_len<V>(m: PathMap<V>)
    ensures
        #[trigger] m.values().len() == m.keys().len(),
{
    sorted::lemma_values_len(m.inner);
}

/// A map has finitely many keys.
pub proof fn lemma_paths_finite<V>(m: PathMap<V>)
    ensures
        m@.dom().finite(),
{
    sorted::lemma_finite(m.inner);
    assert(m@.dom() =~= m.inner@.dom());
}

} // verus!
