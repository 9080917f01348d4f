//! Hash maps from octree keys.

use crate::key::VoxelKey;
use std::collections::HashMap;
use vstd::prelude::*;

verus! {

broadcast use vstd::std_specs::hash::group_hash_axioms;

/// A hash map from octree keys; it hashes the number of a key.
#[verifier::reject_recursive_types(V)]
pub struct KeyMap<V> {
    map: HashMap<u128, V>,
}

impl<V> View for KeyMap<V> {
    type V = Map<VoxelKey, V>;

    closed spec fn view(&self) -> Map<VoxelKey, V> {
        Map::new(
            |key: VoxelKey| self.map@.contains_key(key.code()),
            |key: VoxelKey| self.map@[key.code()],
        )
    }
}

impl<V> KeyMap<V> {
    /// A map without entries.
    pub fn new() -> (res: KeyMap<V>)
        ensures
            res@ == Map::<VoxelKey, V>::empty(),
    {
        let res = KeyMap { map: HashMap::new() };
        assert(res@ =~= Map::<VoxelKey, V>::empty());
        res
    }

    proof fn lemma_finite(&self)
        ensures
            self@.dom().finite(),
    {
        let codes = self.map@.dom();
        let keys = codes.map(|code: u128| VoxelKey::of_code(code));
        codes.lemma_map_finite(|code: u128| VoxelKey::of_code(code));
        assert forall|key: VoxelKey| self@.dom().contains(key) implies keys.contains(key) by {
            crate::key::lemma_code_is_one_to_one(key, key.code());
            assert(codes.contains(key.code()));
        }
        vstd::set_lib::lemma_set_subset_finite(keys, self@.dom());
    }

    /// Whether there is an entry for `key`.
    pub fn contains_key(&self, key: &VoxelKey) -> (res: bool)
        ensures
            res == self@.contains_key(*key),
    {
        self.map.contains_key(&key.to_code())
    }

    /// The value for `key`.
    pub fn get(&self, key: &VoxelKey) -> (res: Option<&V>)
        ensures
            res is Some <==> self@.contains_key(*key),
            res matches Some(value) ==> *value == self@[*key],
    {
        self.map.get(&key.to_code())
    }

    /// Sets the value for `key`.
    pub fn insert(&mut self, key: VoxelKey, value: V)
        ensures
            final(self)@ == old(self)@.insert(key, value),
    {
        self.map.insert(key.to_code(), value);
        proof {
            assert forall|k: VoxelKey| k.code() == key.code() implies k == key by {
                crate::key::lemma_code_is_one_to_one(k, 0);
                crate::key::lemma_code_is_one_to_one(key, 0);
            }
            assert(self@ =~= old(self)@.insert(key, value));
        }
    }

    /// Takes the entry for `key` out.
    pub fn remove(&mut self, key: &VoxelKey) -> (res: Option<V>)
        ensures
            final(self)@ == old(self)@.remove(*key),
            res == old(self)@.get(*key),
    {
        let res = self.map.remove(&key.to_code());
        proof {
            assert forall|k: VoxelKey| k.code() == key.code() implies k == *key by {
                crate::key::lemma_code_is_one_to_one(k, 0);
                crate::key::lemma_code_is_one_to_one(*key, 0);
            }
            assert(self@ =~= old(self)@.remove(*key));
        }
        res
    }

    /// The keys that have an entry, in no particular order.
    pub fn keys(&self) -> (res: Vec<VoxelKey>)
        ensures
            res@.no_duplicates(),
            forall|key: VoxelKey| #[trigger] res@.contains(key) <==> self@.contains_key(key),
            self@.dom().finite(),
    {
        let mut res: Vec<VoxelKey> = Vec::new();
        let ghost codes: Seq<&u128> = vstd::std_specs::iter::IteratorSpec::remaining(
            &vstd::std_specs::hash::spec_keys_iter(&self.map),
        );
        for code in it: self.map.keys()
            invariant
                it.seq() == codes,
                res@.len() == it.index(),
                forall|i: int| 0 <= i < res@.len() ==> res@[i] == VoxelKey::of_code(*codes[i]),
        {
            res.push(VoxelKey::from_code(*code));
        }
        proof {
            self.lemma_finite();
            assert(codes.unref().to_set() == self.map@.dom());
            assert forall|i: int, j: int| 0 <= i < j < res@.len() implies res@[i] != res@[j] by {
                crate::key::lemma_code_is_one_to_one(res@[i], *codes[i]);
                crate::key::lemma_code_is_one_to_one(res@[j], *codes[j]);
                assert(codes[i] != codes[j]);
            }
            assert forall|key: VoxelKey| #[trigger] res@.contains(key) <==> self@.contains_key(key) by {
                crate::key::lemma_code_is_one_to_one(key, key.code());
                if res@.contains(key) {
                    let i = choose|i: int| 0 <= i < res@.len() && res@[i] == key;
                    crate::key::lemma_code_is_one_to_one(key, *codes[i]);
                    assert(codes.unref()[i] == key.code());
                    assert(codes.unref().to_set().contains(key.code()));
                }
                if self@.contains_key(key) {
                    assert(codes.unref().to_set().contains(key.code()));
                    let i = choose|i: int| 0 <= i < codes.unref().len() && codes.unref()[i] == key.code();
                    assert(res@[i] == key);
                }
            }
        }
        res
    }
}

} // verus!
