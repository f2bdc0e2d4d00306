//! A small association map from `i32` identities to copyable values.
//!
//! The simulator keys its components and subnets by small integer ids, so a
//! plain vector of key/value pairs with a uniqueness invariant is enough.
//! The abstraction is a `Map<i32, V>`.

use vstd::pervasive::VecAdditionalExecFns;
use vstd::prelude::*;

verus! {

/// The map denoted by parallel key/value sequences; later entries win,
/// which coincides with first-wins when the keys are distinct.
pub open spec fn kv_map<K, V>(keys: Seq<K>, vals: Seq<V>) -> Map<K, V>
    decreases keys.len(),
{
    if keys.len() == 0 || vals.len() == 0 {
        Map::empty()
    } else {
        kv_map(keys.drop_last(), vals.drop_last()).insert(keys.last(), vals.last())
    }
}

/// Association map from ids to values, with each id present at most once.
pub struct IdMap<V> {
    pub keys: Vec<i32>,
    pub vals: Vec<V>,
}

impl<V> View for IdMap<V> {
    type V = Map<i32, V>;

    open spec fn view(&self) -> Map<i32, V> {
        kv_map(self.keys@, self.vals@)
    }
}

/// The domain of a key/value list is exactly the set of listed keys.
pub proof fn lemma_kv_dom<K, V>(keys: Seq<K>, vals: Seq<V>)
    requires
        keys.len() == vals.len(),
    ensures
        forall|k: K| #[trigger] kv_map(keys, vals).contains_key(k) <==> keys.contains(k),
    decreases keys.len(),
{
    if keys.len() > 0 {
        let d = keys.drop_last();
        let dv = vals.drop_last();
        lemma_kv_dom(d, dv);
        assert forall|k: K| #[trigger] kv_map(keys, vals).contains_key(k) implies keys.contains(
            k,
        ) by {
            if k == keys.last() {
                assert(keys[keys.len() - 1] == k);
            } else {
                assert(kv_map(d, dv).contains_key(k));
                assert(d.contains(k));
                let i = choose|i: int| 0 <= i < d.len() && d[i] == k;
                assert(keys[i] == k);
            }
        }
        assert forall|k: K| keys.contains(k) implies #[trigger] kv_map(keys, vals).contains_key(
            k,
        ) by {
            let i = choose|i: int| 0 <= i < keys.len() && keys[i] == k;
            if i == keys.len() - 1 {
                assert(k == keys.last());
            } else {
                assert(d[i] == k);
                assert(d.contains(k));
                assert(kv_map(d, dv).contains_key(k));
            }
        }
    }
}

/// With distinct keys, the entry at index `i` is what the map returns.
pub proof fn lemma_kv_index<K, V>(keys: Seq<K>, vals: Seq<V>, i: int)
    requires
        keys.len() == vals.len(),
        0 <= i < keys.len(),
        forall|a: int, b: int| 0 <= a < b < keys.len() ==> keys[a] != keys[b],
    ensures
        kv_map(keys, vals).contains_key(keys[i]),
        kv_map(keys, vals)[keys[i]] == vals[i],
    decreases keys.len(),
{
    lemma_kv_dom(keys, vals);
    if i < keys.len() - 1 {
        lemma_kv_index(keys.drop_last(), vals.drop_last(), i);
        assert(keys.last() != keys[i]);
    }
}

impl<V: Copy> IdMap<V> {
    /// Key uniqueness and alignment of the two vectors.
    pub open spec fn wf(&self) -> bool {
        &&& self.keys@.len() == self.vals@.len()
        &&& forall|a: int, b: int| 0 <= a < b < self.keys@.len() ==> self.keys@[a] != self.keys@[b]
    }

    /// Number of entries.
    pub open spec fn spec_len(&self) -> nat {
        self.keys@.len()
    }

    pub fn new() -> (r: Self)
        ensures
            r.wf(),
            r@ == Map::<i32, V>::empty(),
            r.spec_len() == 0,
    {
        IdMap { keys: Vec::new(), vals: Vec::new() }
    }

    pub fn len(&self) -> (n: usize)
        ensures
            n == self.spec_len(),
    {
        self.keys.len()
    }

    /// Index of a key, if present.
    fn find(&self, k: i32) -> (r: Option<usize>)
        requires
            self.wf(),
        ensures
            match r {
                Some(i) => i < self.keys@.len() && self.keys@[i as int] == k,
                None => !self.keys@.contains(k),
            },
    {
        let mut i: usize = 0;
        while i < self.keys.len()
            invariant
                i <= self.keys@.len(),
                forall|j: int| 0 <= j < i ==> self.keys@[j] != k,
            decreases self.keys@.len() - i,
        {
            if self.keys[i] == k {
                return Some(i);
            }
            i = i + 1;
        }
        None
    }

    pub fn contains_key(&self, k: i32) -> (r: bool)
        requires
            self.wf(),
        ensures
            r == self@.contains_key(k),
    {
        proof {
            lemma_kv_dom(self.keys@, self.vals@);
        }
        match self.find(k) {
            Some(i) => {
                proof {
                    assert(self.keys@.contains(k));
                }
                true
            }
            None => false,
        }
    }

    pub fn get(&self, k: i32) -> (r: Option<V>)
        requires
            self.wf(),
        ensures
            r == if self@.contains_key(k) {
                Some(self@[k])
            } else {
                None::<V>
            },
    {
        proof {
            lemma_kv_dom(self.keys@, self.vals@);
        }
        match self.find(k) {
            Some(i) => {
                proof {
                    assert(self.keys@.contains(k));
                    lemma_kv_index(self.keys@, self.vals@, i as int);
                }
                Some(self.vals[i])
            }
            None => None,
        }
    }

    pub fn insert(&mut self, k: i32, v: V)
        requires
            old(self).wf(),
        ensures
            final(self).wf(),
            final(self)@ == old(self)@.insert(k, v),
            final(self).spec_len() == old(self).spec_len() + if old(self)@.contains_key(k) {
                0int
            } else {
                1int
            },
    {
        proof {
            lemma_kv_dom(self.keys@, self.vals@);
        }
        match self.find(k) {
            Some(i) => {
                proof {
                    assert(self.keys@.contains(k));
                }
                self.vals.set(i, v);
                proof {
                    lemma_kv_update(old(self).keys@, old(self).vals@, i as int, v);
                }
            }
            None => {
                self.keys.push(k);
                self.vals.push(v);
                proof {
                    assert(self.keys@.drop_last() =~= old(self).keys@);
                    assert(self.vals@.drop_last() =~= old(self).vals@);
                }
            }
        }
    }

    pub fn remove(&mut self, k: i32) -> (r: Option<V>)
        requires
            old(self).wf(),
        ensures
            final(self).wf(),
            final(self)@ == old(self)@.remove(k),
            r == if old(self)@.contains_key(k) {
                Some(old(self)@[k])
            } else {
                None::<V>
            },
            final(self).spec_len() == old(self).spec_len() - if old(self)@.contains_key(k) {
                1int
            } else {
                0int
            },
            !old(self)@.contains_key(k) ==> *final(self) == *old(self),
    {
        proof {
            lemma_kv_dom(self.keys@, self.vals@);
        }
        match self.find(k) {
            Some(i) => {
                proof {
                    assert(self.keys@.contains(k));
                    lemma_kv_index(self.keys@, self.vals@, i as int);
                }
                let v = self.vals[i];
                self.keys.remove(i);
                self.vals.remove(i);
                proof {
                    lemma_kv_remove(old(self).keys@, old(self).vals@, i as int);
                }
                Some(v)
            }
            None => {
                proof {
                    assert(old(self)@.remove(k) =~= old(self)@);
                }
                None
            }
        }
    }

    /// Empties the map, handing back its former contents.
    pub fn take(&mut self) -> (r: Self)
        requires
            old(self).wf(),
        ensures
            final(self).wf(),
            final(self)@ == Map::<i32, V>::empty(),
            final(self).spec_len() == 0,
            r.wf(),
            r@ == old(self)@,
            r.spec_len() == old(self).spec_len(),
    {
        let mut tmp = IdMap::new();
        core::mem::swap(self, &mut tmp);
        tmp
    }
}

/// Updating the value at a key's index is a map insert at that key.
pub proof fn lemma_kv_update<K, V>(keys: Seq<K>, vals: Seq<V>, i: int, v: V)
    requires
        keys.len() == vals.len(),
        0 <= i < keys.len(),
        forall|a: int, b: int| 0 <= a < b < keys.len() ==> keys[a] != keys[b],
    ensures
        kv_map(keys, vals.update(i, v)) == kv_map(keys, vals).insert(keys[i], v),
    decreases keys.len(),
{
    lemma_kv_dom(keys, vals);
    if i == keys.len() - 1 {
        assert(vals.update(i, v).drop_last() =~= vals.drop_last());
        assert(vals.update(i, v).last() == v);
        assert(kv_map(keys, vals.update(i, v)) =~= kv_map(keys, vals).insert(keys[i], v));
    } else {
        lemma_kv_update(keys.drop_last(), vals.drop_last(), i, v);
        assert(vals.update(i, v).drop_last() =~= vals.drop_last().update(i, v));
        assert(vals.update(i, v).last() == vals.last());
        assert(kv_map(keys, vals.update(i, v)) =~= kv_map(keys, vals).insert(keys[i], v));
    }
}

/// Removing the entry at a key's index is a map remove of that key.
pub proof fn lemma_kv_remove<K, V>(keys: Seq<K>, vals: Seq<V>, i: int)
    requires
        keys.len() == vals.len(),
        0 <= i < keys.len(),
        forall|a: int, b: int| 0 <= a < b < keys.len() ==> keys[a] != keys[b],
    ensures
        kv_map(keys.remove(i), vals.remove(i)) == kv_map(keys, vals).remove(keys[i]),
    decreases keys.len(),
{
    lemma_kv_dom(keys, vals);
    lemma_kv_dom(keys.drop_last(), vals.drop_last());
    if i == keys.len() - 1 {
        assert(keys.remove(i) =~= keys.drop_last());
        assert(vals.remove(i) =~= vals.drop_last());
        assert(!keys.drop_last().contains(keys[i]));
        assert(kv_map(keys.remove(i), vals.remove(i)) =~= kv_map(keys, vals).remove(keys[i]));
    } else {
        lemma_kv_remove(keys.drop_last(), vals.drop_last(), i);
        assert(keys.remove(i).drop_last() =~= keys.drop_last().remove(i));
        assert(vals.remove(i).drop_last() =~= vals.drop_last().remove(i));
        assert(keys.remove(i).last() == keys.last());
        assert(vals.remove(i).last() == vals.last());
        assert(kv_map(keys.remove(i), vals.remove(i)) =~= kv_map(keys, vals).remove(keys[i]));
    }
}

} // verus!
