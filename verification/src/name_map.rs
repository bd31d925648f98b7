//! A map from names to values that keeps its entries in the order of the names.

use crate::names::{
    lemma_less_asymmetric, lemma_less_total, lemma_less_transitive, lemma_rank_of, name_less,
    NameLike, Rank,
};
use vstd::prelude::*;

verus! {

/// Each name comes before all that follow it, so that none occurs twice.
pub open spec fn strictly_sorted(names: Seq<Seq<u8>>) -> bool {
    forall|i: int, j: int|
        0 <= i < j < names.len() ==> name_less(#[trigger] names[i], #[trigger] names[j])
}

/// The place of a name among sorted names, if it is one of them.
pub open spec fn position(names: Seq<Seq<u8>>, key: Seq<u8>) -> Option<int> {
    if names.contains(key) {
        Some(names.index_of(key))
    } else {
        None
    }
}

/// `p` is where `key`, which is not among the names, stands between them.
pub open spec fn is_slot(names: Seq<Seq<u8>>, key: Seq<u8>, p: int) -> bool {
    &&& 0 <= p <= names.len()
    &&& forall|i: int| 0 <= i < p ==> name_less(#[trigger] names[i], key)
    &&& forall|i: int| p <= i < names.len() ==> name_less(key, #[trigger] names[i])
}

/// Where a name that is not among sorted names is to be put.
pub open spec fn slot(names: Seq<Seq<u8>>, key: Seq<u8>) -> int {
    choose|p: int| is_slot(names, key, p)
}

/// Among sorted names, a name is found where it stands and nowhere else.
pub proof fn lemma_position_at(names: Seq<Seq<u8>>, i: int)
    requires
        strictly_sorted(names),
        0 <= i < names.len(),
    ensures
        position(names, names[i]) == Some(i),
{
    let j = names.index_of(names[i]);
    if j < i {
        lemma_less_asymmetric(names[j], names[i]);
    } else if i < j {
        lemma_less_asymmetric(names[i], names[j]);
    }
}

/// A name with a slot is not among the names, and has no other slot.
pub proof fn lemma_slot_unique(names: Seq<Seq<u8>>, key: Seq<u8>, p: int)
    requires
        is_slot(names, key, p),
    ensures
        position(names, key) is None,
        slot(names, key) == p,
{
    if names.contains(key) {
        let j = names.index_of(key);
        if j < p {
            lemma_less_asymmetric(names[j], key);
        } else {
            lemma_less_asymmetric(key, names[j]);
        }
    }
    let q = slot(names, key);
    if q < p {
        lemma_less_asymmetric(names[q], key);
    } else if p < q {
        lemma_less_asymmetric(names[p], key);
    }
}

/// A name that is not among sorted names has a slot between them.
pub proof fn lemma_slot_exists(names: Seq<Seq<u8>>, key: Seq<u8>)
    requires
        strictly_sorted(names),
        position(names, key) is None,
    ensures
        is_slot(names, key, slot(names, key)),
    decreases names.len(),
{
    if names.len() == 0 {
        assert(is_slot(names, key, 0));
    } else {
        let init = names.drop_last();
        let last = names.last();
        assert(names[names.len() - 1] == last);
        lemma_less_total(last, key);
        if name_less(last, key) {
            assert forall|i: int| 0 <= i < names.len() implies name_less(
                #[trigger] names[i],
                key,
            ) by {
                if i < names.len() - 1 {
                    lemma_less_transitive(names[i], last, key);
                }
            }
            assert(is_slot(names, key, names.len() as int));
        } else {
            if init.contains(key) {
                let j = init.index_of(key);
                assert(names[j] == key);
            }
            assert forall|i: int, j: int| 0 <= i < j < init.len() implies name_less(
                #[trigger] init[i],
                #[trigger] init[j],
            ) by {
                assert(init[i] == names[i] && init[j] == names[j]);
            }
            lemma_slot_exists(init, key);
            let p = slot(init, key);
            assert forall|i: int| 0 <= i < p implies name_less(#[trigger] names[i], key) by {
                assert(names[i] == init[i]);
            }
            assert forall|i: int| p <= i < names.len() implies name_less(
                key,
                #[trigger] names[i],
            ) by {
                if i < names.len() - 1 {
                    assert(names[i] == init[i]);
                }
            }
            assert(is_slot(names, key, p));
        }
    }
}

/// Sorted names stay sorted when a new name is put into its slot.
pub proof fn lemma_insert_sorted(names: Seq<Seq<u8>>, key: Seq<u8>, p: int)
    requires
        strictly_sorted(names),
        is_slot(names, key, p),
    ensures
        strictly_sorted(names.insert(p, key)),
{
    let after = names.insert(p, key);
    assert forall|i: int, j: int| 0 <= i < j < after.len() implies name_less(
        #[trigger] after[i],
        #[trigger] after[j],
    ) by {
        if j < p {
            assert(after[i] == names[i] && after[j] == names[j]);
        } else if j == p {
            assert(after[i] == names[i]);
        } else if i < p {
            assert(after[i] == names[i] && after[j] == names[j - 1]);
        } else if i == p {
            assert(after[j] == names[j - 1]);
        } else {
            assert(after[i] == names[i - 1] && after[j] == names[j - 1]);
        }
    }
}

/// The entries of a map from names, in the order of the names.
pub struct Entries<T> {
    /// The names, in order.
    pub names: Seq<Seq<u8>>,
    /// The value of each name, at the place of the name.
    pub items: Seq<T>,
}

impl<T> Entries<T> {
    /// The names are sorted, and each has its value.
    pub open spec fn wf(self) -> bool {
        &&& self.names.len() == self.items.len()
        &&& strictly_sorted(self.names)
    }

    /// The value of a name, if it has one.
    pub open spec fn lookup(self, key: Seq<u8>) -> Option<T> {
        match position(self.names, key) {
            Some(i) => Some(self.items[i]),
            None => None,
        }
    }

    /// The entries with `value` for `key`: in the place of the value that
    /// the name had, or else in the slot where the name stands among the
    /// names.
    pub open spec fn with(self, key: Seq<u8>, value: T) -> Entries<T> {
        match position(self.names, key) {
            Some(i) => Entries { names: self.names, items: self.items.update(i, value) },
            None => {
                let p = slot(self.names, key);
                Entries { names: self.names.insert(p, key), items: self.items.insert(p, value) }
            },
        }
    }
}

/// To give a name a value changes the value of that name and of no other,
/// and leaves the names sorted.
pub proof fn lemma_with_lookup<T>(entries: Entries<T>, key: Seq<u8>, value: T, other: Seq<u8>)
    requires
        entries.wf(),
    ensures
        entries.with(key, value).wf(),
        entries.with(key, value).lookup(key) == Some(value),
        other != key ==> entries.with(key, value).lookup(other) == entries.lookup(other),
{
    let after = entries.with(key, value);
    match position(entries.names, key) {
        Some(i) => {},
        None => {
            lemma_slot_exists(entries.names, key);
            let p = slot(entries.names, key);
            lemma_insert_sorted(entries.names, key, p);
            lemma_position_at(after.names, p);
            if other != key {
                if entries.names.contains(other) {
                    let i = entries.names.index_of(other);
                    let j = if i < p {
                        i
                    } else {
                        i + 1
                    };
                    assert(after.names[j] == other);
                    lemma_position_at(after.names, j);
                } else if after.names.contains(other) {
                    let j = after.names.index_of(other);
                    if j < p {
                        assert(entries.names[j] == other);
                    } else {
                        assert(entries.names[j - 1] == other);
                    }
                }
            }
        },
    }
}

/// A map from names of type `K` to values of type `V`, in the order of the names.
#[derive(Debug, PartialEq, Eq)]
pub struct NameMap<K: NameLike, V> {
    keys: Vec<K>,
    values: Vec<V>,
}

impl<K: NameLike, V: DeepView> DeepView for NameMap<K, V> {
    type V = Entries<V::V>;

    open spec fn deep_view(&self) -> Entries<V::V> {
        Entries { names: self.names(), items: self.items().map_values(|v: V| v.deep_view()) }
    }
}

impl<K: NameLike, V> NameMap<K, V> {
    /// The names of the entries, in order.
    pub closed spec fn names(&self) -> Seq<Seq<u8>> {
        self.keys@.map_values(|k: K| k.name_bytes())
    }

    /// The values of the entries, each at the place of its name.
    pub closed spec fn items(&self) -> Seq<V> {
        self.values@
    }

    /// The entries of the map.
    pub open spec fn entries(&self) -> Entries<V> {
        Entries { names: self.names(), items: self.items() }
    }

    /// What holds of every map: the names are sorted, and each has its value.
    #[verifier::type_invariant]
    pub open spec fn wf(&self) -> bool {
        &&& self.names().len() == self.items().len()
        &&& strictly_sorted(self.names())
    }

    /// The map without entries.
    pub fn new() -> (r: Self)
        ensures
            r.wf(),
            r.names() == Seq::<Seq<u8>>::empty(),
            r.items() == Seq::<V>::empty(),
    {
        NameMap { keys: Vec::new(), values: Vec::new() }
    }

    /// The number of entries.
    pub fn len(&self) -> (r: usize)
        ensures
            r == self.names().len(),
            r == self.items().len(),
    {
        proof {
            use_type_invariant(self);
        }
        self.keys.len()
    }

    /// The name of the entry at index `i`, if there are that many entries.
    pub fn name(&self, i: usize) -> (r: Option<&K>)
        ensures
            i < self.names().len() ==> (r matches Some(name) && name.name_bytes()
                == self.names()[i as int]),
            i >= self.names().len() ==> r is None,
    {
        proof {
            use_type_invariant(self);
        }
        if i < self.keys.len() {
            Some(&self.keys[i])
        } else {
            None
        }
    }

    /// The value of the entry at index `i`, if there are that many entries.
    pub fn item(&self, i: usize) -> (r: Option<&V>)
        ensures
            i < self.items().len() ==> (r matches Some(value) && *value == self.items()[i as int]),
            i >= self.items().len() ==> r is None,
    {
        proof {
            use_type_invariant(self);
        }
        if i < self.values.len() {
            Some(&self.values[i])
        } else {
            None
        }
    }

    /// The name of the entry at index `i`.
    pub(crate) fn name_at(&self, i: usize) -> (r: &K)
        requires
            i < self.names().len(),
        ensures
            r.name_bytes() == self.names()[i as int],
    {
        &self.keys[i]
    }

    /// The value of the entry at index `i`.
    pub(crate) fn item_at(&self, i: usize) -> (r: &V)
        requires
            i < self.items().len(),
        ensures
            *r == self.items()[i as int],
    {
        &self.values[i]
    }

    /// Adds an entry whose name comes after all the names of the map.
    pub(crate) fn push_last(&mut self, key: K, value: V)
        requires
            forall|i: int|
                0 <= i < old(self).names().len() ==> name_less(
                    #[trigger] old(self).names()[i],
                    key.name_bytes(),
                ),
        ensures
            final(self).wf(),
            final(self).names() == old(self).names().push(key.name_bytes()),
            final(self).items() == old(self).items().push(value),
    {
        proof {
            use_type_invariant(&*self);
        }
        let mut taken = NameMap::new();
        core::mem::swap(self, &mut taken);
        let NameMap { keys, values } = taken;
        let mut keys = keys;
        let mut values = values;
        keys.push(key);
        values.push(value);
        assert(keys@.map_values(|k: K| k.name_bytes()) =~= old(self).names().push(
            key.name_bytes(),
        ));
        *self = NameMap { keys, values };
    }

    /// Puts `value` at index `i`, and returns the value that stood there.
    pub(crate) fn replace_item(&mut self, i: usize, value: V) -> (r: V)
        requires
            i < old(self).items().len(),
        ensures
            final(self).wf(),
            final(self).names() == old(self).names(),
            final(self).items() == old(self).items().update(i as int, value),
            r == old(self).items()[i as int],
    {
        proof {
            use_type_invariant(&*self);
        }
        let mut taken = NameMap::new();
        core::mem::swap(self, &mut taken);
        let NameMap { keys, values } = taken;
        let mut values = values;
        let before = values.remove(i);
        values.insert(i, value);
        assert(values@ =~= old(self).values@.update(i as int, value));
        *self = NameMap { keys, values };
        before
    }

    /// The index of the entry of `key`, or else the slot where it would stand.
    fn locate(&self, key: &K) -> (r: (usize, bool))
        ensures
            self.wf(),
            r.1 ==> r.0 < self.names().len() && self.names()[r.0 as int] == key.name_bytes(),
            !r.1 ==> is_slot(self.names(), key.name_bytes(), r.0 as int),
    {
        proof {
            use_type_invariant(self);
        }
        let mut p: usize = 0;
        while p < self.keys.len()
            invariant
                self.wf(),
                p <= self.keys.len(),
                forall|i: int|
                    0 <= i < p ==> name_less(#[trigger] self.names()[i], key.name_bytes()),
            decreases self.keys.len() - p,
        {
            let rank = self.keys[p].rank_to(key);
            proof {
                lemma_rank_of(self.names()[p as int], key.name_bytes());
            }
            match rank {
                Rank::Before => {
                    p += 1;
                },
                Rank::Same => {
                    return (p, true);
                },
                Rank::After => {
                    proof {
                        let names = self.names();
                        let kb = key.name_bytes();
                        assert(name_less(kb, names[p as int]));
                        assert forall|i: int| p <= i < names.len() implies name_less(
                            kb,
                            #[trigger] names[i],
                        ) by {
                            if p < i {
                                lemma_less_transitive(kb, names[p as int], names[i]);
                            }
                        }
                    }
                    return (p, false);
                },
            }
        }
        (p, false)
    }

    /// The index of the entry of `key`, if there is one.
    pub fn find(&self, key: &K) -> (r: Option<usize>)
        ensures
            match r {
                Some(i) => position(self.names(), key.name_bytes()) == Some(i as int),
                None => position(self.names(), key.name_bytes()) is None,
            },
            r is Some ==> r->0 < self.names().len(),
    {
        let (p, found) = self.locate(key);
        proof {
            if found {
                lemma_position_at(self.names(), p as int);
            } else {
                lemma_slot_unique(self.names(), key.name_bytes(), p as int);
            }
        }
        if found {
            Some(p)
        } else {
            None
        }
    }

    /// The value of `key`, if it has one.
    pub fn get(&self, key: &K) -> (r: Option<&V>)
        ensures
            match r {
                Some(value) => self.entries().lookup(key.name_bytes()) == Some(*value),
                None => self.entries().lookup(key.name_bytes()) is None,
            },
    {
        proof {
            use_type_invariant(self);
        }
        match self.find(key) {
            Some(i) => Some(&self.values[i]),
            None => None,
        }
    }

    /// Gives `key` the value `value`, and returns the value that it had.
    pub fn insert(&mut self, key: K, value: V) -> (r: Option<V>)
        ensures
            final(self).wf(),
            final(self).entries() == old(self).entries().with(key.name_bytes(), value),
            r == old(self).entries().lookup(key.name_bytes()),
    {
        let (p, found) = self.locate(&key);
        let mut taken = NameMap::new();
        core::mem::swap(self, &mut taken);
        let NameMap { keys, values } = taken;
        let mut keys = keys;
        let mut values = values;
        if found {
            proof {
                lemma_position_at(old(self).names(), p as int);
            }
            let before = values.remove(p);
            values.insert(p, value);
            assert(values@ =~= old(self).values@.update(p as int, value));
            *self = NameMap { keys, values };
            Some(before)
        } else {
            proof {
                lemma_slot_unique(old(self).names(), key.name_bytes(), p as int);
                lemma_insert_sorted(old(self).names(), key.name_bytes(), p as int);
            }
            keys.insert(p, key);
            values.insert(p, value);
            assert(keys@.map_values(|k: K| k.name_bytes()) =~= old(self).names().insert(
                p as int,
                key.name_bytes(),
            ));
            *self = NameMap { keys, values };
            None
        }
    }
}

} // verus!
