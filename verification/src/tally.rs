//! Sums over what is kept by octree node.

use crate::key::VoxelKey;
use vstd::prelude::*;

verus! {

/// What `of` gives for the values of `keys`, all together.
pub open spec fn sum_over<V>(
    values: Map<VoxelKey, V>,
    keys: Set<VoxelKey>,
    of: spec_fn(V) -> nat,
) -> nat
    decreases keys.len(),
{
    if keys.finite() && keys.len() > 0 {
        let key = keys.choose();
        of(values[key]) + sum_over(values, keys.remove(key), of)
    } else {
        0
    }
}

/// The sum does not depend on which value is counted first.
pub proof fn lemma_sum_picks<V>(
    values: Map<VoxelKey, V>,
    keys: Set<VoxelKey>,
    key: VoxelKey,
    of: spec_fn(V) -> nat,
)
    requires
        keys.finite(),
        keys.contains(key),
    ensures
        sum_over(values, keys, of) == of(values[key]) + sum_over(values, keys.remove(key), of),
    decreases keys.len(),
{
    let first = keys.choose();
    if first != key {
        lemma_sum_picks(values, keys.remove(first), key, of);
        assert(keys.remove(first).remove(key) =~= keys.remove(key).remove(first));
        lemma_sum_picks(values, keys.remove(key), first, of);
    }
}

/// The sum depends on the values that it counts only.
pub proof fn lemma_sum_agrees<V>(
    a: Map<VoxelKey, V>,
    b: Map<VoxelKey, V>,
    keys: Set<VoxelKey>,
    of: spec_fn(V) -> nat,
)
    requires
        forall|key: VoxelKey| #[trigger] keys.contains(key) ==> a[key] == b[key],
    ensures
        sum_over(a, keys, of) == sum_over(b, keys, of),
    decreases keys.len(),
{
    if keys.finite() && keys.len() > 0 {
        lemma_sum_agrees(a, b, keys.remove(keys.choose()), of);
    }
}

/// Setting one value changes the sum by that value only.
pub proof fn lemma_sum_insert<V>(
    values: Map<VoxelKey, V>,
    key: VoxelKey,
    value: V,
    of: spec_fn(V) -> nat,
)
    requires
        values.dom().finite(),
    ensures
        sum_over(values.insert(key, value), values.insert(key, value).dom(), of) == of(value)
            + sum_over(values.remove(key), values.remove(key).dom(), of),
{
    let after = values.insert(key, value);
    lemma_sum_picks(after, after.dom(), key, of);
    assert(after.dom().remove(key) =~= values.remove(key).dom());
    lemma_sum_agrees(after, values.remove(key), values.remove(key).dom(), of);
}

/// Taking one value out changes the sum by that value only.
pub proof fn lemma_sum_remove<V>(
    values: Map<VoxelKey, V>,
    key: VoxelKey,
    of: spec_fn(V) -> nat,
)
    requires
        values.dom().finite(),
    ensures
        sum_over(values, values.dom(), of) == (if values.contains_key(key) {
            of(values[key])
        } else {
            0
        }) + sum_over(values.remove(key), values.remove(key).dom(), of),
{
    assert(values.remove(key).dom() =~= values.dom().remove(key));
    lemma_sum_agrees(values, values.remove(key), values.remove(key).dom(), of);
    if values.contains_key(key) {
        lemma_sum_picks(values, values.dom(), key, of);
    } else {
        assert(values.remove(key).dom() =~= values.dom());
    }
}

} // verus!
