//! Octree keys in order, the deepest first.

use crate::key::VoxelKey;
use std::collections::BTreeMap;
use vstd::prelude::*;

verus! {

broadcast use {
    vstd::std_specs::btree::group_btree_axioms,
    vstd::laws_cmp::group_laws_cmp,
};

/// Whether the numbers of the keys become ever less, and thus their levels never
/// deeper.
pub open spec fn descends(keys: Seq<VoxelKey>) -> bool {
    forall|i: int, j: int| 0 <= i < j < keys.len() ==> #[trigger] keys[i].code() > #[trigger] keys[j].code()
}

proof fn lemma_increasing_numbers(numbers: Seq<u128>, i: int, j: int)
    requires
        vstd::std_specs::btree::increasing_seq(numbers),
        0 <= i < j < numbers.len(),
    ensures
        numbers[i] < numbers[j],
{
    assert(vstd::std_specs::cmp::OrdSpec::cmp_spec(&numbers[i], &numbers[j]) is Less);
}

/// The keys of `keys`, each once, the deepest first.
pub fn deepest_first(keys: &Vec<VoxelKey>) -> (res: Vec<VoxelKey>)
    ensures
        descends(res@),
        forall|key: VoxelKey| #[trigger] res@.contains(key) <==> keys@.contains(key),
{
    let mut codes: BTreeMap<u128, bool> = BTreeMap::new();
    let mut i: usize = 0;
    while i < keys.len()
        invariant
            0 <= i <= keys@.len(),
            forall|code: u128| #[trigger]
                codes@.contains_key(code) <==> exists|j: int|
                    0 <= j < i && (#[trigger] keys@[j]).code() == code,
        decreases keys@.len() - i,
    {
        let ghost before: Map<u128, bool> = codes@;
        codes.insert(keys[i].to_code(), true);
        proof {
            assert forall|code: u128| #[trigger] codes@.contains_key(code) <==> exists|j: int|
                0 <= j < i + 1 && (#[trigger] keys@[j]).code() == code by {
                if codes@.contains_key(code) {
                    if before.contains_key(code) {
                        let j = choose|j: int| 0 <= j < i && (#[trigger] keys@[j]).code() == code;
                        assert(keys@[j].code() == code);
                    } else {
                        assert(keys@[i as int].code() == code);
                    }
                }
            }
        }
        i = i + 1;
    }
    let entries = codes.iter();
    let ghost pairs: Seq<(&u128, &bool)> = vstd::std_specs::iter::IteratorSpec::remaining(&entries);
    let ghost numbers: Seq<u128> = choose|s: Seq<u128>| #[trigger]
        vstd::std_specs::btree::increasing_seq(s) && s.len() == pairs.len() && forall|j: int|
            0 <= j < s.len() ==> #[trigger] s[j] == *pairs[j].0;
    let mut rising: Vec<VoxelKey> = Vec::new();
    for entry in it: entries
        invariant
            it.seq() == pairs,
            rising@.len() == it.index(),
            forall|j: int|
                0 <= j < rising@.len() ==> #[trigger] rising@[j] == VoxelKey::of_code(*pairs[j].0),
    {
        rising.push(VoxelKey::from_code(*entry.0));
    }
    let mut res: Vec<VoxelKey> = Vec::new();
    let ghost whole: Seq<VoxelKey> = rising@;
    while rising.len() > 0
        invariant
            rising@.len() + res@.len() == whole.len(),
            rising@ == whole.take(rising@.len() as int),
            res@ == whole.reverse().take(res@.len() as int),
        decreases rising@.len(),
    {
        if let Some(key) = rising.pop() {
            res.push(key);
            assert(rising@ =~= whole.take(rising@.len() as int));
            assert(res@ =~= whole.reverse().take(res@.len() as int));
        }
    }
    proof {
        assert(res@ =~= whole.reverse());
        assert forall|i: int, j: int| 0 <= i < j < res@.len() implies #[trigger] res@[i].code()
            > #[trigger] res@[j].code() by {
            let a = whole.len() - 1 - i;
            let b = whole.len() - 1 - j;
            assert(vstd::std_specs::btree::increasing_seq(numbers));
            lemma_increasing_numbers(numbers, b, a);
            assert(numbers[b] == *pairs[b].0 && numbers[a] == *pairs[a].0);
            crate::key::lemma_code_is_one_to_one(res@[i], numbers[a]);
            crate::key::lemma_code_is_one_to_one(res@[j], numbers[b]);
        }
        assert forall|key: VoxelKey| #[trigger] res@.contains(key) <==> keys@.contains(key) by {
            crate::key::lemma_code_is_one_to_one(key, key.code());
            if res@.contains(key) {
                let i = choose|i: int| 0 <= i < res@.len() && res@[i] == key;
                let a = whole.len() - 1 - i;
                crate::key::lemma_code_is_one_to_one(key, *pairs[a].0);
                assert(codes@.contains_key(*pairs[a].0));
                let j = choose|j: int| 0 <= j < keys@.len() && (#[trigger] keys@[j]).code() == key.code();
                crate::key::lemma_code_is_one_to_one(keys@[j], 0);
                assert(keys@[j] == key);
            }
            if keys@.contains(key) {
                let j = choose|j: int| 0 <= j < keys@.len() && keys@[j] == key;
                assert(codes@.contains_key(keys@[j].code()));
                assert(pairs.contains((&key.code(), &codes@[key.code()])));
                let a = choose|a: int| 0 <= a < pairs.len() && pairs[a] == (&key.code(), &codes@[key.code()]);
                assert(whole[a] == key);
                assert(res@[whole.len() - 1 - a] == key);
            }
        }
    }
    res
}

/// In order, no key is on a deeper level than one before it.
pub proof fn lemma_levels_descend(keys: Seq<VoxelKey>, i: int, j: int)
    requires
        descends(keys),
        0 <= i < j < keys.len(),
    ensures
        keys[i].level >= keys[j].level,
        keys[i] != keys[j],
{
    assert(keys[i].code() > keys[j].code());
    if keys[j].level > keys[i].level {
        crate::key::lemma_deeper_key_has_greater_code(keys[j], keys[i]);
    }
}

} // verus!
