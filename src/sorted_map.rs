//! A map from string keys to values, kept sorted by key.

use vstd::prelude::*;
use crate::text::{key_cmp, key_lt, lemma_key_lt_order};

verus! {

/// Keys strictly increasing: sorted, and no key twice.
pub open spec fn keys_sorted<V>(d: Seq<(Seq<char>, V)>) -> bool {
    forall|i: int, j: int| 0 <= i < j < d.len() ==> #[trigger] key_lt(d[i].0, d[j].0)
}

/// The position of the first entry whose key is not below `k`, scanning from `i`.
pub open spec fn lower_bound<V>(d: Seq<(Seq<char>, V)>, k: Seq<char>, i: int) -> int
    decreases d.len() - i,
{
    if 0 <= i < d.len() && key_lt(d[i].0, k) {
        lower_bound(d, k, i + 1)
    } else {
        i
    }
}

/// The entries after binding `k` to `v`: an entry with key `k` is replaced in
/// place, otherwise the new entry goes where the key order puts it.
pub open spec fn map_insert<V>(d: Seq<(Seq<char>, V)>, k: Seq<char>, v: V) -> Seq<(Seq<char>, V)> {
    let i = lower_bound(d, k, 0);
    if i < d.len() && d[i].0 == k {
        d.update(i, (k, v))
    } else {
        d.insert(i, (k, v))
    }
}

/// The entries without the one whose key is `k`.
pub open spec fn map_remove<V>(d: Seq<(Seq<char>, V)>, k: Seq<char>) -> Seq<(Seq<char>, V)> {
    let i = lower_bound(d, k, 0);
    if i < d.len() && d[i].0 == k {
        d.remove(i)
    } else {
        d
    }
}

pub proof fn lemma_lower_bound<V>(d: Seq<(Seq<char>, V)>, k: Seq<char>, i: int)
    requires
        0 <= i <= d.len(),
        keys_sorted(d),
        forall|j: int| 0 <= j < i ==> key_lt(#[trigger] d[j].0, k),
    ensures
        i <= lower_bound(d, k, i) <= d.len(),
        forall|j: int| 0 <= j < lower_bound(d, k, i) ==> key_lt(#[trigger] d[j].0, k),
        forall|j: int| lower_bound(d, k, i) <= j < d.len() ==> !key_lt(#[trigger] d[j].0, k),
    decreases d.len() - i,
{
    if i < d.len() && key_lt(d[i].0, k) {
        lemma_lower_bound(d, k, i + 1);
    } else if i < d.len() {
        assert forall|j: int| i <= j < d.len() implies !key_lt(#[trigger] d[j].0, k) by {
            if j > i {
                assert(key_lt(d[i].0, d[j].0));
                lemma_key_lt_order(d[i].0, d[j].0, k);
                lemma_key_lt_order(d[j].0, k, d[i].0);
                lemma_key_lt_order(k, d[i].0, d[j].0);
            }
        }
    }
}

pub proof fn lemma_insert_sorted<V>(d: Seq<(Seq<char>, V)>, k: Seq<char>, v: V)
    requires
        keys_sorted(d),
    ensures
        keys_sorted(map_insert(d, k, v)),
{
    lemma_lower_bound(d, k, 0);
    let i = lower_bound(d, k, 0);
    let r = map_insert(d, k, v);
    if i < d.len() && d[i].0 == k {
        assert forall|a: int, b: int| 0 <= a < b < r.len() implies #[trigger] key_lt(r[a].0, r[b].0) by {
            assert(key_lt(d[a].0, d[b].0));
        }
    } else {
        assert forall|a: int, b: int| 0 <= a < b < r.len() implies #[trigger] key_lt(r[a].0, r[b].0) by {
            if b < i {
                assert(key_lt(d[a].0, d[b].0));
            } else if b == i {
                assert(key_lt(d[a].0, k));
            } else if a < i {
                assert(key_lt(d[a].0, k));
                assert(!key_lt(d[b - 1].0, k));
                lemma_key_lt_order(d[b - 1].0, k, k);
                if i < b - 1 {
                    assert(key_lt(d[i].0, d[b - 1].0));
                    lemma_key_lt_order(k, d[i].0, d[b - 1].0);
                }
                lemma_key_lt_order(d[a].0, k, d[b - 1].0);
            } else if a == i {
                assert(!key_lt(d[b - 1].0, k));
                lemma_key_lt_order(k, d[b - 1].0, k);
                if b - 1 > i {
                    assert(key_lt(d[i].0, d[b - 1].0));
                    assert(!key_lt(d[i].0, k));
                    lemma_key_lt_order(d[i].0, k, d[b - 1].0);
                }
            } else {
                assert(key_lt(d[a - 1].0, d[b - 1].0));
            }
        }
    }
}

pub proof fn lemma_remove_sorted<V>(d: Seq<(Seq<char>, V)>, k: Seq<char>)
    requires
        keys_sorted(d),
    ensures
        keys_sorted(map_remove(d, k)),
{
    lemma_lower_bound(d, k, 0);
    let i = lower_bound(d, k, 0);
    let r = map_remove(d, k);
    if i < d.len() && d[i].0 == k {
        assert forall|a: int, b: int| 0 <= a < b < r.len() implies #[trigger] key_lt(r[a].0, r[b].0) by {
            let a2 = if a < i { a } else { a + 1 };
            let b2 = if b < i { b } else { b + 1 };
            assert(key_lt(d[a2].0, d[b2].0));
        }
    }
}

/// The entries with each value replaced by its image under `f`.
pub open spec fn map_vals<V, W>(d: Seq<(Seq<char>, V)>, f: spec_fn(V) -> W) -> Seq<(Seq<char>, W)>
    decreases d.len(),
{
    if d.len() == 0 {
        Seq::empty()
    } else {
        map_vals(d.drop_last(), f).push((d.last().0, f(d.last().1)))
    }
}

pub proof fn lemma_map_vals<V, W>(d: Seq<(Seq<char>, V)>, f: spec_fn(V) -> W)
    ensures
        map_vals(d, f).len() == d.len(),
        forall|i: int| 0 <= i < d.len() ==> #[trigger] map_vals(d, f)[i] == (d[i].0, f(d[i].1)),
    decreases d.len(),
{
    if d.len() > 0 {
        lemma_map_vals(d.drop_last(), f);
    }
}

/// Binding a key commutes with mapping the values.
pub proof fn lemma_insert_map_vals<V, W>(d: Seq<(Seq<char>, V)>, k: Seq<char>, v: V, f: spec_fn(V) -> W)
    ensures
        map_insert(map_vals(d, f), k, f(v)) == map_vals(map_insert(d, k, v), f),
{
    lemma_map_vals(d, f);
    lemma_lower_bound_map_vals(d, k, f, 0);
    lemma_lower_bound_range(d, k, 0);
    let r = map_insert(d, k, v);
    lemma_map_vals(r, f);
    let i = lower_bound(d, k, 0);
    let m = map_vals(d, f);
    if i < d.len() && d[i].0 == k {
        assert(m[i].0 == k);
        assert(map_insert(m, k, f(v)) =~= map_vals(r, f));
    } else {
        assert(i < d.len() ==> m[i].0 != k);
        assert(map_insert(m, k, f(v)) =~= map_vals(r, f));
    }
}

pub proof fn lemma_lower_bound_range<V>(d: Seq<(Seq<char>, V)>, k: Seq<char>, i: int)
    requires
        0 <= i <= d.len(),
    ensures
        i <= lower_bound(d, k, i) <= d.len(),
    decreases d.len() - i,
{
    if i < d.len() {
        lemma_lower_bound_range(d, k, i + 1);
    }
}

proof fn lemma_lower_bound_map_vals<V, W>(d: Seq<(Seq<char>, V)>, k: Seq<char>, f: spec_fn(V) -> W, i: int)
    requires
        0 <= i <= d.len(),
    ensures
        lower_bound(map_vals(d, f), k, i) == lower_bound(d, k, i),
    decreases d.len() - i,
{
    lemma_map_vals(d, f);
    if i < d.len() {
        lemma_lower_bound_map_vals(d, k, f, i + 1);
    }
}

/// The value bound to `k`, if any.
pub open spec fn map_lookup<V>(d: Seq<(Seq<char>, V)>, k: Seq<char>) -> Option<V>
    decreases d.len(),
{
    if d.len() == 0 {
        None
    } else if d.last().0 == k {
        Some(d.last().1)
    } else {
        map_lookup(d.drop_last(), k)
    }
}


/// A map from `String` keys, iterated in key order (the byte order of the keys).
#[derive(Debug, PartialEq)]
pub struct SortedMap<V> {
    entries: Vec<(String, V)>,
}

impl<V> SortedMap<V> {
    /// The entries, as keys and values, in key order.
    pub closed spec fn spec_entries(&self) -> Seq<(Seq<char>, V)> {
        self.entries@.map_values(|e: (String, V)| (e.0@, e.1))
    }

    /// The stored pairs themselves.
    pub closed spec fn raw(&self) -> Seq<(String, V)> {
        self.entries@
    }

    pub proof fn lemma_raw(&self)
        ensures
            decreases_to!(self => self.raw()),
            self.spec_entries() == self.raw().map_values(|e: (String, V)| (e.0@, e.1)),
    {
        broadcast use vstd::std_specs::vec::axiom_vec_decreases_to_view;
        assert(decreases_to!(self => self.entries));
        assert(decreases_to!(self.entries => self.entries@));
    }

    #[verifier::type_invariant]
    spec fn sorted(&self) -> bool {
        keys_sorted(self.spec_entries())
    }

    pub fn new() -> (r: Self)
        ensures
            r.spec_entries() == Seq::<(Seq<char>, V)>::empty(),
    {
        let r = SortedMap { entries: Vec::new() };
        proof {
            assert(r.spec_entries() =~= Seq::<(Seq<char>, V)>::empty());
        }
        r
    }

    pub fn len(&self) -> (r: usize)
        ensures
            r == self.spec_entries().len(),
    {
        self.entries.len()
    }

    pub fn is_empty(&self) -> (r: bool)
        ensures
            r == (self.spec_entries().len() == 0),
    {
        self.entries.len() == 0
    }

    /// The key and value at position `i` of the key order.
    pub fn entry(&self, i: usize) -> (r: (&String, &V))
        requires
            i < self.spec_entries().len(),
        ensures
            (r.0@, *r.1) == self.spec_entries()[i as int],
            *r.1 == self.raw()[i as int].1,
    {
        let e = &self.entries[i];
        (&e.0, &e.1)
    }

    /// The position of the first entry whose key is not below `key`.
    fn position(&self, key: &str) -> (r: usize)
        ensures
            r == lower_bound(self.spec_entries(), key@, 0),
    {
        let mut i: usize = 0;
        while i < self.entries.len() && key_cmp(self.entries[i].0.as_str(), key) < 0
            invariant
                i <= self.spec_entries().len(),
                self.spec_entries().len() == self.entries@.len(),
                lower_bound(self.spec_entries(), key@, i as int) == lower_bound(
                    self.spec_entries(),
                    key@,
                    0,
                ),
            decreases self.entries@.len() - i,
        {
            i = i + 1;
        }
        i
    }

    /// Binds `key` to `value`, replacing what `key` was bound to.
    pub fn insert(&mut self, key: String, value: V)
        ensures
            final(self).spec_entries() == map_insert(old(self).spec_entries(), key@, value),
    {
        proof {
            use_type_invariant(&*self);
            lemma_insert_sorted(self.spec_entries(), key@, value);
            lemma_lower_bound(self.spec_entries(), key@, 0);
        }
        let ghost old_entries = self.spec_entries();
        let i = self.position(key.as_str());
        let found = i < self.entries.len() && key_cmp(self.entries[i].0.as_str(), key.as_str()) == 0;
        let mut entries = Vec::new();
        std::mem::swap(&mut entries, &mut self.entries);
        if found {
            entries.set(i, (key, value));
        } else {
            entries.insert(i, (key, value));
        }
        proof {
            let m = SortedMap { entries };
            assert(m.spec_entries() =~= map_insert(old_entries, key@, value));
        }
        self.entries = entries;
    }

    /// Unbinds `key`, handing back what it was bound to.
    pub fn remove(&mut self, key: &str) -> (r: Option<V>)
        ensures
            final(self).spec_entries() == map_remove(old(self).spec_entries(), key@),
            r == map_lookup(old(self).spec_entries(), key@),
    {
        proof {
            use_type_invariant(&*self);
            lemma_remove_sorted(self.spec_entries(), key@);
        }
        let ghost old_entries = self.spec_entries();
        let i = self.position(key);
        if i < self.entries.len() && key_cmp(self.entries[i].0.as_str(), key) == 0 {
            proof {
                lemma_lookup_sorted(old_entries, i as int);
            }
            let mut entries = Vec::new();
            std::mem::swap(&mut entries, &mut self.entries);
            let e = entries.remove(i);
            proof {
                let m = SortedMap { entries };
                assert(m.spec_entries() =~= map_remove(old_entries, key@));
            }
            self.entries = entries;
            Some(e.1)
        } else {
            proof {
                lemma_lower_bound(old_entries, key@, 0);
                assert forall|j: int| 0 <= j < old_entries.len() implies old_entries[j].0 != key@ by {
                    if j > i {
                        assert(key_lt(old_entries[i as int].0, old_entries[j].0));
                        lemma_key_lt_order(old_entries[i as int].0, key@, key@);
                        lemma_key_lt_order(key@, old_entries[i as int].0, key@);
                    }
                    lemma_key_lt_order(key@, key@, key@);
                }
                lemma_lookup_absent(old_entries, key@);
            }
            None
        }
    }

    /// The position of `key`, if it is bound.
    fn find(&self, key: &str) -> (r: Option<usize>)
        ensures
            r matches Some(i) ==> i < self.spec_entries().len() && self.spec_entries()[i as int].0
                == key@,
            r is None ==> forall|i: int|
                0 <= i < self.spec_entries().len() ==> self.spec_entries()[i].0 != key@,
    {
        let mut i: usize = 0;
        while i < self.entries.len()
            invariant
                i <= self.spec_entries().len(),
                self.spec_entries().len() == self.entries@.len(),
                forall|j: int| 0 <= j < i ==> self.spec_entries()[j].0 != key@,
            decreases self.entries@.len() - i,
        {
            if key_cmp(self.entries[i].0.as_str(), key) == 0 {
                return Some(i);
            }
            i = i + 1;
        }
        None
    }

    /// The value bound to `key`.
    pub fn get(&self, key: &str) -> (r: Option<&V>)
        ensures
            r is None <==> map_lookup(self.spec_entries(), key@) is None,
            r matches Some(v) ==> map_lookup(self.spec_entries(), key@) == Some(*v),
    {
        match self.find(key) {
            Some(i) => {
                proof {
                    use_type_invariant(self);
                    lemma_lookup_sorted(self.spec_entries(), i as int);
                }
                Some(&self.entries[i].1)
            },
            None => {
                proof {
                    lemma_lookup_absent(self.spec_entries(), key@);
                }
                None
            },
        }
    }
}

pub proof fn lemma_lookup_absent<V>(d: Seq<(Seq<char>, V)>, k: Seq<char>)
    requires
        forall|i: int| 0 <= i < d.len() ==> d[i].0 != k,
    ensures
        map_lookup(d, k) is None,
    decreases d.len(),
{
    if d.len() > 0 {
        lemma_lookup_absent(d.drop_last(), k);
    }
}

pub proof fn lemma_lookup_sorted<V>(d: Seq<(Seq<char>, V)>, i: int)
    requires
        keys_sorted(d),
        0 <= i < d.len(),
    ensures
        map_lookup(d, d[i].0) == Some(d[i].1),
    decreases d.len(),
{
    if i < d.len() - 1 {
        lemma_key_lt_order(d[i].0, d.last().0, d.last().0);
        assert(key_lt(d[i].0, d[d.len() - 1].0));
        lemma_lookup_sorted(d.drop_last(), i);
    }
}

/// After binding `k` to `v`, `k` looks up `v`, and every other key looks
/// up what it did before.
pub proof fn lemma_lookup_insert<V>(d: Seq<(Seq<char>, V)>, k: Seq<char>, v: V, k2: Seq<char>)
    requires
        keys_sorted(d),
    ensures
        map_lookup(map_insert(d, k, v), k) == Some(v),
        k2 != k ==> map_lookup(map_insert(d, k, v), k2) == map_lookup(d, k2),
{
    lemma_insert_sorted(d, k, v);
    lemma_lower_bound_range(d, k, 0);
    let m = map_insert(d, k, v);
    let j = lower_bound(d, k, 0);
    let found = j < d.len() && d[j].0 == k;
    assert(m[j] == (k, v));
    lemma_lookup_sorted(m, j);
    if k2 != k {
        if exists|i: int| 0 <= i < d.len() && d[i].0 == k2 {
            let i = choose|i: int| 0 <= i < d.len() && d[i].0 == k2;
            lemma_lookup_sorted(d, i);
            let i2 = if found || i < j { i } else { i + 1 };
            if found {
                assert(i != j);
            }
            assert(m[i2] == d[i]);
            lemma_lookup_sorted(m, i2);
        } else {
            lemma_lookup_absent(d, k2);
            assert forall|i: int| 0 <= i < m.len() implies m[i].0 != k2 by {
                if i != j {
                    let i0 = if found || i < j { i } else { i - 1 };
                    assert(m[i] == d[i0]);
                }
            }
            lemma_lookup_absent(m, k2);
        }
    }
}

} // verus!
