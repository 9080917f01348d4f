//! How the chunks that are left are put together when the file is closed, so that
//! no node has too few points.
//!
//! The nodes are looked at from the deepest level up. A node with too few points
//! takes in the points of a leaf below it, if it has nodes below it; else its
//! points go to the nearest node above it. At last the root, where it has too few
//! points, takes in a deepest node. Only nodes with nothing below them go away, so
//! that every node that stays can still be reached from the root.

use crate::chunk_store::{ChunkBuffer, ChunkView};
use crate::key::VoxelKey;
use crate::keymap::KeyMap;
use vstd::prelude::*;

verus! {

/// The deepest level on which the coordinates of keys do not wrap.
pub const DEEPEST_ON_GRID: i32 = 31;

/// The records of the node `key`; none where it has none.
pub open spec fn records_at(groups: Map<VoxelKey, Seq<Seq<u8>>>, key: VoxelKey) -> Seq<Seq<u8>> {
    if groups.contains_key(key) {
        groups[key]
    } else {
        Seq::empty()
    }
}

/// The groups once the node `into` has taken in the records of the node `from`.
pub open spec fn merged(
    groups: Map<VoxelKey, Seq<Seq<u8>>>,
    from: VoxelKey,
    into: VoxelKey,
) -> Map<VoxelKey, Seq<Seq<u8>>> {
    groups.remove(from).insert(into, records_at(groups, into) + records_at(groups, from))
}

/// Whether the node `key` is there and has fewer than `least` points.
pub open spec fn is_small(groups: Map<VoxelKey, Seq<Seq<u8>>>, key: VoxelKey, least: int) -> bool {
    groups.contains_key(key) && groups[key].len() < least
}

/// The first octant of the node `key`, from direction `dir` on, that is there.
pub open spec fn octant_from(
    groups: Map<VoxelKey, Seq<Seq<u8>>>,
    key: VoxelKey,
    dir: int,
) -> Option<VoxelKey>
    decreases 8 - dir,
{
    if dir >= 8 {
        None
    } else if groups.contains_key(key.octant_key(dir)) {
        Some(key.octant_key(dir))
    } else {
        octant_from(groups, key, dir + 1)
    }
}

/// The node that is reached from the node `key` by going to the first octant that
/// is there, again and again, for at most `levels` levels.
pub open spec fn leaf_below(
    groups: Map<VoxelKey, Seq<Seq<u8>>>,
    key: VoxelKey,
    levels: nat,
) -> VoxelKey
    decreases levels,
{
    if levels == 0 {
        key
    } else {
        match octant_from(groups, key, 0) {
            Some(octant) => leaf_below(groups, octant, (levels - 1) as nat),
            None => key,
        }
    }
}

/// The nearest node above the node `key` that is there, of the `levels` levels above
/// it, or else the root.
pub open spec fn node_above(
    groups: Map<VoxelKey, Seq<Seq<u8>>>,
    key: VoxelKey,
    levels: nat,
) -> VoxelKey
    decreases levels,
{
    if levels == 0 {
        VoxelKey::root()
    } else if groups.contains_key(key.parent()) {
        key.parent()
    } else {
        node_above(groups, key.parent(), (levels - 1) as nat)
    }
}

/// The levels below the one of `key` whose keys are on the grid.
pub open spec fn levels_below(key: VoxelKey) -> nat {
    if 0 <= key.level <= DEEPEST_ON_GRID {
        (DEEPEST_ON_GRID - key.level) as nat
    } else {
        0
    }
}

/// The levels above the one of `key`, where its key is on the grid.
pub open spec fn levels_above(key: VoxelKey) -> nat {
    if 0 <= key.level <= DEEPEST_ON_GRID {
        key.level as nat
    } else {
        0
    }
}

/// The groups once the node `key` has been looked at.
pub open spec fn with_node_settled(
    groups: Map<VoxelKey, Seq<Seq<u8>>>,
    key: VoxelKey,
    least: int,
) -> Map<VoxelKey, Seq<Seq<u8>>> {
    let leaf = leaf_below(groups, key, levels_below(key));
    if !is_small(groups, key, least) {
        groups
    } else if leaf != key {
        merged(groups, leaf, key)
    } else {
        merged(groups, key, node_above(groups, key, levels_above(key)))
    }
}

/// The groups once the nodes of `order` have been looked at, one after another.
pub open spec fn with_nodes_settled(
    groups: Map<VoxelKey, Seq<Seq<u8>>>,
    order: Seq<VoxelKey>,
    least: int,
) -> Map<VoxelKey, Seq<Seq<u8>>>
    decreases order.len(),
{
    if order.len() == 0 {
        groups
    } else {
        with_node_settled(
            with_nodes_settled(groups, order.drop_last(), least),
            order.last(),
            least,
        )
    }
}

/// The nodes of `order` that are there.
pub open spec fn kept(groups: Map<VoxelKey, Seq<Seq<u8>>>, order: Seq<VoxelKey>) -> Seq<VoxelKey>
    decreases order.len(),
{
    if order.len() == 0 {
        Seq::empty()
    } else if groups.contains_key(order.last()) {
        kept(groups, order.drop_last()).push(order.last())
    } else {
        kept(groups, order.drop_last())
    }
}

/// The groups once the root has been looked at, as the last one.
pub open spec fn with_root_settled(
    groups: Map<VoxelKey, Seq<Seq<u8>>>,
    order: Seq<VoxelKey>,
    least: int,
) -> Map<VoxelKey, Seq<Seq<u8>>> {
    if is_small(groups, VoxelKey::root(), least) && kept(groups, order).len() > 0 {
        merged(groups, kept(groups, order)[0], VoxelKey::root())
    } else {
        groups
    }
}

/// Whether `order` has the nodes below the root, each once, the deepest first.
pub open spec fn orders(chunks: Map<VoxelKey, Seq<Seq<u8>>>, order: Seq<VoxelKey>) -> bool {
    &&& crate::order::descends(order)
    &&& forall|key: VoxelKey| #[trigger]
        order.contains(key) <==> chunks.contains_key(key) && key != VoxelKey::root()
}

/// The order in which the nodes below the root are looked at.
pub open spec fn order_of(chunks: Map<VoxelKey, Seq<Seq<u8>>>) -> Seq<VoxelKey> {
    choose|order: Seq<VoxelKey>| orders(chunks, order)
}

/// The groups that the chunks are put together to, so that no node has fewer than
/// `least` points.
pub open spec fn grouped(chunks: Map<VoxelKey, Seq<Seq<u8>>>, least: int) -> Map<
    VoxelKey,
    Seq<Seq<u8>>,
> {
    let order = order_of(chunks);
    with_root_settled(with_nodes_settled(chunks, order, least), order, least)
}

/// The nodes of the groups, in the order in which they are listed: the deepest
/// first, the root last.
pub open spec fn group_keys(chunks: Map<VoxelKey, Seq<Seq<u8>>>, least: int) -> Seq<VoxelKey> {
    let groups = grouped(chunks, least);
    let below = kept(groups, order_of(chunks));
    if groups.contains_key(VoxelKey::root()) {
        below.push(VoxelKey::root())
    } else {
        below
    }
}

/// There is one such order only.
pub proof fn lemma_order_is_unique(a: Seq<VoxelKey>, b: Seq<VoxelKey>)
    requires
        crate::order::descends(a),
        crate::order::descends(b),
        forall|key: VoxelKey| #[trigger] a.contains(key) <==> b.contains(key),
    ensures
        a == b,
    decreases a.len(),
{
    if a.len() == 0 {
        if b.len() > 0 {
            assert(b.contains(b[0]));
            assert(a.contains(b[0]));
        }
        assert(a =~= b);
    } else {
        assert(a.contains(a[a.len() - 1]));
        let i = choose|i: int| 0 <= i < b.len() && b[i] == a.last();
        assert(b.contains(b[b.len() - 1]));
        assert(a.contains(b[b.len() - 1]));
        let j = choose|j: int| 0 <= j < a.len() && a[j] == b.last();
        assert(a.last() == b.last()) by {
            if i < b.len() - 1 && j < a.len() - 1 {
                assert(b[i].code() > b[b.len() - 1].code());
                assert(a[j].code() > a[a.len() - 1].code());
            }
        }
        let a1 = a.drop_last();
        let b1 = b.drop_last();
        assert forall|key: VoxelKey| #[trigger] a1.contains(key) <==> b1.contains(key) by {
            if a1.contains(key) {
                let k = choose|k: int| 0 <= k < a1.len() && a1[k] == key;
                assert(a[k].code() > a[a.len() - 1].code());
                assert(a.contains(a[k]));
                let l = choose|l: int| 0 <= l < b.len() && b[l] == key;
                assert(b1[l] == key);
            }
            if b1.contains(key) {
                let k = choose|k: int| 0 <= k < b1.len() && b1[k] == key;
                assert(b[k].code() > b[b.len() - 1].code());
                assert(b.contains(b[k]));
                assert(a.contains(key));
                let l = choose|l: int| 0 <= l < a.len() && a[l] == key;
                assert(a1[l] == key);
            }
        }
        assert forall|k: int, l: int| 0 <= k < l < a1.len() implies #[trigger] a1[k].code()
            > #[trigger] a1[l].code() by {
            assert(a[k].code() > a[l].code());
        }
        assert forall|k: int, l: int| 0 <= k < l < b1.len() implies #[trigger] b1[k].code()
            > #[trigger] b1[l].code() by {
            assert(b[k].code() > b[l].code());
        }
        lemma_order_is_unique(a1, b1);
        assert(a =~= a1.push(a.last()));
        assert(b =~= b1.push(b.last()));
    }
}

proof fn lemma_lowest_key(keys: Set<VoxelKey>) -> (lowest: VoxelKey)
    requires
        keys.finite(),
        keys.len() > 0,
    ensures
        keys.contains(lowest),
        forall|key: VoxelKey| #[trigger] keys.contains(key) ==> lowest.code() <= key.code(),
    decreases keys.len(),
{
    let some = keys.choose();
    let rest = keys.remove(some);
    if rest.len() == 0 {
        assert forall|key: VoxelKey| #[trigger] keys.contains(key) implies some.code()
            <= key.code() by {
            assert(key == some || rest.contains(key));
        }
        some
    } else {
        let lowest = lemma_lowest_key(rest);
        let least = if some.code() < lowest.code() {
            some
        } else {
            lowest
        };
        assert forall|key: VoxelKey| #[trigger] keys.contains(key) implies least.code()
            <= key.code() by {
            assert(key == some || rest.contains(key));
        }
        least
    }
}

proof fn lemma_keys_in_order(keys: Set<VoxelKey>) -> (order: Seq<VoxelKey>)
    requires
        keys.finite(),
    ensures
        crate::order::descends(order),
        forall|key: VoxelKey| #[trigger] order.contains(key) <==> keys.contains(key),
    decreases keys.len(),
{
    if keys.len() == 0 {
        Seq::empty()
    } else {
        let lowest = lemma_lowest_key(keys);
        let before = lemma_keys_in_order(keys.remove(lowest));
        let order = before.push(lowest);
        assert forall|i: int, j: int| 0 <= i < j < order.len() implies #[trigger] order[i].code()
            > #[trigger] order[j].code() by {
            assert(before.contains(before[i]));
            if j < before.len() {
                assert(before[i].code() > before[j].code());
            } else {
                crate::key::lemma_code_is_one_to_one(before[i], 0);
                crate::key::lemma_code_is_one_to_one(lowest, 0);
                assert(keys.contains(before[i]));
            }
        }
        assert forall|key: VoxelKey| #[trigger] order.contains(key) <==> keys.contains(key) by {
            assert(order[order.len() - 1] == lowest);
            if before.contains(key) {
                let i = choose|i: int| 0 <= i < before.len() && before[i] == key;
                assert(order[i] == key);
            }
            if order.contains(key) && key != lowest {
                let i = choose|i: int| 0 <= i < order.len() && order[i] == key;
                assert(before[i] == key);
            }
        }
        order
    }
}

/// Nodes can always be put in order.
pub proof fn lemma_order_exists(chunks: Map<VoxelKey, Seq<Seq<u8>>>)
    requires
        chunks.dom().finite(),
    ensures
        orders(chunks, order_of(chunks)),
{
    let order = lemma_keys_in_order(chunks.dom().remove(VoxelKey::root()));
    assert(orders(chunks, order));
}

/// The chosen order is any order of the nodes.
pub proof fn lemma_order_is(chunks: Map<VoxelKey, Seq<Seq<u8>>>, order: Seq<VoxelKey>)
    requires
        orders(chunks, order),
    ensures
        order_of(chunks) == order,
{
    lemma_order_is_unique(order_of(chunks), order);
}

proof fn lemma_octant_is_there(groups: Map<VoxelKey, Seq<Seq<u8>>>, key: VoxelKey, dir: int)
    requires
        key.level < i32::MAX,
        0 <= dir,
    ensures
        octant_from(groups, key, dir) matches Some(octant) ==> groups.contains_key(octant)
            && octant.level == key.level + 1,
    decreases 8 - dir,
{
    if dir < 8 && !groups.contains_key(key.octant_key(dir)) {
        lemma_octant_is_there(groups, key, dir + 1);
    }
}

proof fn lemma_leaf_is_below(groups: Map<VoxelKey, Seq<Seq<u8>>>, key: VoxelKey, levels: nat)
    requires
        key.level + levels <= DEEPEST_ON_GRID,
    ensures
        ({
            let leaf = leaf_below(groups, key, levels);
            leaf == key || groups.contains_key(leaf) && leaf.level > key.level
        }),
    decreases levels,
{
    if levels > 0 {
        lemma_octant_is_there(groups, key, 0);
        if let Some(octant) = octant_from(groups, key, 0) {
            lemma_leaf_is_below(groups, octant, (levels - 1) as nat);
        }
    }
}

proof fn lemma_node_is_above(groups: Map<VoxelKey, Seq<Seq<u8>>>, key: VoxelKey, levels: nat)
    requires
        key.level - levels >= i32::MIN,
    ensures
        ({
            let above = node_above(groups, key, levels);
            above == VoxelKey::root() || groups.contains_key(above) && above.level < key.level
        }),
    decreases levels,
{
    if levels > 0 && !groups.contains_key(key.parent()) {
        lemma_node_is_above(groups, key.parent(), (levels - 1) as nat);
    }
}

/// Whether the nodes are nodes of chunks or the root, and those below the root
/// that have fewer than `least` points are still to be looked at, from place
/// `next` of `order` on.
spec fn settled_up_to(
    chunks: Map<VoxelKey, Seq<Seq<u8>>>,
    groups: Map<VoxelKey, Seq<Seq<u8>>>,
    order: Seq<VoxelKey>,
    next: int,
    least: int,
) -> bool {
    &&& groups.dom().finite()
    &&& forall|key: VoxelKey| #[trigger]
        groups.contains_key(key) ==> {
            &&& chunks.contains_key(key) || key == VoxelKey::root()
            &&& key == VoxelKey::root() || groups[key].len() >= least || order.skip(next).contains(
                key,
            )
        }
}

proof fn lemma_node_is_settled(
    chunks: Map<VoxelKey, Seq<Seq<u8>>>,
    groups: Map<VoxelKey, Seq<Seq<u8>>>,
    order: Seq<VoxelKey>,
    next: int,
    least: int,
)
    requires
        orders(chunks, order),
        0 <= next < order.len(),
        settled_up_to(chunks, groups, order, next, least),
    ensures
        settled_up_to(
            chunks,
            with_node_settled(groups, order[next], least),
            order,
            next + 1,
            least,
        ),
{
    let key = order[next];
    let after = with_node_settled(groups, key, least);
    let leaf = leaf_below(groups, key, levels_below(key));
    let above = node_above(groups, key, levels_above(key));
    if 0 <= key.level <= DEEPEST_ON_GRID {
        lemma_leaf_is_below(groups, key, levels_below(key));
    }
    lemma_node_is_above(groups, key, levels_above(key));
    assert(order.contains(key));
    assert forall|k: VoxelKey| order.skip(next).contains(k) && k != key implies #[trigger] order.skip(
        next + 1,
    ).contains(k) by {
        let i = choose|i: int| 0 <= i < order.skip(next).len() && order.skip(next)[i] == k;
        assert(order.skip(next + 1)[i - 1] == k);
    }
    assert forall|k: VoxelKey| #[trigger] after.contains_key(k) implies {
        &&& chunks.contains_key(k) || k == VoxelKey::root()
        &&& k == VoxelKey::root() || after[k].len() >= least || order.skip(next + 1).contains(k)
    } by {
        if is_small(groups, key, least) {
            if leaf != key {
                if k == key {
                    crate::key::lemma_deeper_key_has_greater_code(leaf, key);
                    if order.skip(next).contains(leaf) {
                        let i = choose|i: int|
                            0 <= i < order.skip(next).len() && order.skip(next)[i] == leaf;
                        assert(order[next + i] == leaf);
                        if i > 0 {
                            assert(order[next].code() > order[next + i].code());
                        }
                        assert(false);
                    }
                    assert(leaf == VoxelKey::root() || groups[leaf].len() >= least);
                    if leaf == VoxelKey::root() {
                        assert(leaf.level > key.level);
                        assert(key.level >= 0);
                    }
                } else {
                    assert(groups.contains_key(k));
                }
            } else {
                if k != above {
                    assert(groups.contains_key(k));
                } else if k != VoxelKey::root() {
                    assert(groups.contains_key(k));
                    assert(after[k].len() >= groups[k].len());
                }
            }
        } else {
            assert(groups.contains_key(k));
        }
    }
}

proof fn lemma_nodes_are_settled(
    chunks: Map<VoxelKey, Seq<Seq<u8>>>,
    order: Seq<VoxelKey>,
    next: int,
    least: int,
)
    requires
        chunks.dom().finite(),
        orders(chunks, order),
        0 <= next <= order.len(),
    ensures
        settled_up_to(
            chunks,
            with_nodes_settled(chunks, order.take(next), least),
            order,
            next,
            least,
        ),
    decreases next,
{
    if next == 0 {
        assert(order.skip(0) =~= order);
        assert forall|key: VoxelKey| #[trigger] chunks.contains_key(key) implies key
            == VoxelKey::root() || order.contains(key) by {
            assert(order.contains(key) <==> chunks.contains_key(key) && key != VoxelKey::root());
        }
    } else {
        lemma_nodes_are_settled(chunks, order, next - 1, least);
        assert(order.take(next).drop_last() =~= order.take(next - 1));
        lemma_node_is_settled(
            chunks,
            with_nodes_settled(chunks, order.take(next - 1), least),
            order,
            next - 1,
            least,
        );
    }
}

proof fn lemma_kept_nodes(groups: Map<VoxelKey, Seq<Seq<u8>>>, order: Seq<VoxelKey>)
    requires
        crate::order::descends(order),
    ensures
        kept(groups, order).no_duplicates(),
        forall|key: VoxelKey| #[trigger]
            kept(groups, order).contains(key) <==> groups.contains_key(key) && order.contains(key),
    decreases order.len(),
{
    if order.len() > 0 {
        let fewer = order.drop_last();
        let before = kept(groups, fewer);
        assert forall|i: int, j: int| 0 <= i < j < fewer.len() implies #[trigger] fewer[i].code()
            > #[trigger] fewer[j].code() by {
            assert(order[i].code() > order[j].code());
        }
        lemma_kept_nodes(groups, fewer);
        assert(!fewer.contains(order.last())) by {
            if fewer.contains(order.last()) {
                let i = choose|i: int| 0 <= i < fewer.len() && fewer[i] == order.last();
                assert(order[i].code() > order[order.len() - 1].code());
            }
        }
        assert(!before.contains(order.last()));
        assert forall|key: VoxelKey| #[trigger] kept(groups, order).contains(key)
            <==> groups.contains_key(key) && order.contains(key) by {
            assert(before.contains(key) <==> groups.contains_key(key) && fewer.contains(key));
            assert(order.contains(key) <==> fewer.contains(key) || key == order.last()) by {
                if fewer.contains(key) {
                    let i = choose|i: int| 0 <= i < fewer.len() && fewer[i] == key;
                    assert(order[i] == key);
                }
                if order.contains(key) && key != order.last() {
                    let i = choose|i: int| 0 <= i < order.len() && order[i] == key;
                    assert(fewer[i] == key);
                }
                if key == order.last() {
                    assert(order[order.len() - 1] == key);
                }
            }
            if groups.contains_key(order.last()) {
                let all = before.push(order.last());
                if before.contains(key) {
                    let i = choose|i: int| 0 <= i < before.len() && before[i] == key;
                    assert(all[i] == key);
                }
                if key == order.last() {
                    assert(all[all.len() - 1] == key);
                }
                if all.contains(key) && key != order.last() {
                    let i = choose|i: int| 0 <= i < all.len() && all[i] == key;
                    assert(before[i] == key);
                }
            }
        }
    }
}

/// The least size is a hard limit: every group has `least` points or more, unless
/// there is only one group. All groups are nodes of chunks, or the root.
pub proof fn lemma_groups_are_large(
    chunks: Map<VoxelKey, Seq<Seq<u8>>>,
    least: int,
    key: VoxelKey,
)
    requires
        chunks.dom().finite(),
        grouped(chunks, least).contains_key(key),
    ensures
        chunks.contains_key(key) || key == VoxelKey::root(),
        grouped(chunks, least)[key].len() >= least || grouped(chunks, least).dom() == set![key],
{
    let order = order_of(chunks);
    lemma_order_exists(chunks);
    lemma_nodes_are_settled(chunks, order, order.len() as int, least);
    assert(order.take(order.len() as int) =~= order);
    let groups = with_nodes_settled(chunks, order, least);
    let after = grouped(chunks, least);
    let left = kept(groups, order);
    lemma_kept_nodes(groups, order);
    assert forall|k: VoxelKey| !#[trigger] order.skip(order.len() as int).contains(k) by {}
    if is_small(groups, VoxelKey::root(), least) {
        if left.len() > 0 {
            assert(left.contains(left[0]));
            assert(order.contains(left[0]));
            assert(groups.contains_key(left[0]));
            if key != VoxelKey::root() {
                assert(groups.contains_key(key));
            }
        } else {
            assert forall|k: VoxelKey| #[trigger] groups.contains_key(k) implies k
                == VoxelKey::root() by {
                if k != VoxelKey::root() {
                    assert(order.contains(k));
                    assert(left.contains(k));
                }
            }
            assert(after.dom() =~= set![key]);
        }
    } else {
        assert(groups.contains_key(key));
    }
}

/// Whether no key wraps, the root is among the nodes or among those of `out`, and so is
/// the parent of every other node.
pub open spec fn is_linked(groups: Map<VoxelKey, Seq<Seq<u8>>>, out: Set<VoxelKey>) -> bool {
    &&& groups.contains_key(VoxelKey::root()) || out.contains(VoxelKey::root())
    &&& forall|key: VoxelKey| #[trigger]
        groups.contains_key(key) ==> {
            &&& key.on_grid()
            &&& key.level <= DEEPEST_ON_GRID
            &&& key == VoxelKey::root() || groups.contains_key(key.parent()) || out.contains(
                key.parent(),
            )
        }
}

proof fn lemma_no_octant_is_there(
    groups: Map<VoxelKey, Seq<Seq<u8>>>,
    key: VoxelKey,
    dir: int,
    other: int,
)
    requires
        octant_from(groups, key, dir) is None,
        0 <= dir <= other < 8,
    ensures
        !groups.contains_key(key.octant_key(other)),
    decreases 8 - dir,
{
    if dir < other {
        lemma_no_octant_is_there(groups, key, dir + 1, other);
    }
}

proof fn lemma_leaf_has_nothing_below(
    groups: Map<VoxelKey, Seq<Seq<u8>>>,
    key: VoxelKey,
    levels: nat,
    dir: int,
)
    requires
        key.level + levels == DEEPEST_ON_GRID,
        0 <= dir < 8,
    ensures
        ({
            let leaf = leaf_below(groups, key, levels);
            leaf.level == DEEPEST_ON_GRID || !groups.contains_key(leaf.octant_key(dir))
        }),
    decreases levels,
{
    if levels > 0 {
        lemma_octant_is_there(groups, key, 0);
        match octant_from(groups, key, 0) {
            Some(octant) => {
                lemma_leaf_has_nothing_below(groups, octant, (levels - 1) as nat, dir);
            },
            None => {
                lemma_no_octant_is_there(groups, key, 0, dir);
            },
        }
    }
}

proof fn lemma_merging_keeps_links(
    groups: Map<VoxelKey, Seq<Seq<u8>>>,
    from: VoxelKey,
    into: VoxelKey,
    out: Set<VoxelKey>,
)
    requires
        is_linked(groups, out),
        from != VoxelKey::root(),
        into == VoxelKey::root() || groups.contains_key(into),
        forall|key: VoxelKey| #[trigger]
            groups.contains_key(key) && key != VoxelKey::root() ==> key.parent() != from,
        from != into,
    ensures
        is_linked(merged(groups, from, into), out),
{
    let after = merged(groups, from, into);
    vstd::arithmetic::power2::lemma2_to64();
    assert forall|key: VoxelKey| #[trigger] after.contains_key(key) implies {
        &&& key.on_grid()
        &&& key.level <= DEEPEST_ON_GRID
        &&& key == VoxelKey::root() || after.contains_key(key.parent()) || out.contains(
            key.parent(),
        )
    } by {
        if key != VoxelKey::root() {
            assert(groups.contains_key(key));
            assert(key.parent() != from);
        }
    }
}

proof fn lemma_settling_keeps_links(
    chunks: Map<VoxelKey, Seq<Seq<u8>>>,
    order: Seq<VoxelKey>,
    least: int,
    out: Set<VoxelKey>,
)
    requires
        is_linked(chunks, out),
        !order.contains(VoxelKey::root()),
    ensures
        is_linked(with_nodes_settled(chunks, order, least), out),
    decreases order.len(),
{
    if order.len() > 0 {
        let fewer = order.drop_last();
        let key = order.last();
        assert(order[order.len() - 1] == key);
        assert(!fewer.contains(VoxelKey::root())) by {
            if fewer.contains(VoxelKey::root()) {
                let i = choose|i: int| 0 <= i < fewer.len() && fewer[i] == VoxelKey::root();
                assert(order[i] == VoxelKey::root());
            }
        }
        lemma_settling_keeps_links(chunks, fewer, least, out);
        let groups = with_nodes_settled(chunks, fewer, least);
        if is_small(groups, key, least) {
            let leaf = leaf_below(groups, key, levels_below(key));
            let above = node_above(groups, key, levels_above(key));
            lemma_leaf_is_below(groups, key, levels_below(key));
            lemma_node_is_above(groups, key, levels_above(key));
            assert forall|k: VoxelKey| #[trigger]
                groups.contains_key(k) && k != VoxelKey::root() implies k.parent() != leaf by {
                if k.parent() == leaf {
                    if k.level == 0 {
                        crate::key::lemma_topmost_node_is_the_root(k);
                    }
                    let dir = crate::key::lemma_octant_of_parent(k);
                    lemma_leaf_has_nothing_below(groups, key, levels_below(key), dir);
                }
            }
            if leaf != key {
                lemma_merging_keeps_links(groups, leaf, key, out);
            } else {
                lemma_merging_keeps_links(groups, key, above, out);
            }
        }
    }
}

proof fn lemma_first_kept_is_deepest(
    groups: Map<VoxelKey, Seq<Seq<u8>>>,
    order: Seq<VoxelKey>,
    key: VoxelKey,
)
    requires
        crate::order::descends(order),
        order.contains(key),
        groups.contains_key(key),
    ensures
        kept(groups, order).len() > 0,
        kept(groups, order)[0].level >= key.level,
    decreases order.len(),
{
    let fewer = order.drop_last();
    let last = order.last();
    assert forall|i: int, j: int| 0 <= i < j < fewer.len() implies #[trigger] fewer[i].code()
        > #[trigger] fewer[j].code() by {
        assert(order[i].code() > order[j].code());
    }
    let i = choose|i: int| 0 <= i < order.len() && order[i] == key;
    if i < order.len() - 1 {
        assert(fewer[i] == key);
        lemma_first_kept_is_deepest(groups, fewer, key);
    } else {
        let before = kept(groups, fewer);
        if before.len() > 0 {
            lemma_kept_nodes(groups, fewer);
            assert(before.contains(before[0]));
            let j = choose|j: int| 0 <= j < fewer.len() && fewer[j] == before[0];
            assert(order[j].code() > order[i].code());
            if key.level > before[0].level {
                crate::key::lemma_deeper_key_has_greater_code(key, before[0]);
            }
        }
    }
}

/// Closing changes nothing where no chunk is too small: each chunk is a group of its
/// own.
pub proof fn lemma_large_chunks_stay(chunks: Map<VoxelKey, Seq<Seq<u8>>>, least: int)
    requires
        forall|key: VoxelKey| #[trigger] chunks.contains_key(key) ==> chunks[key].len() >= least,
    ensures
        grouped(chunks, least) == chunks,
{
    lemma_large_nodes_stay(chunks, order_of(chunks), least);
}

proof fn lemma_large_nodes_stay(
    chunks: Map<VoxelKey, Seq<Seq<u8>>>,
    order: Seq<VoxelKey>,
    least: int,
)
    requires
        forall|key: VoxelKey| #[trigger] chunks.contains_key(key) ==> chunks[key].len() >= least,
    ensures
        with_nodes_settled(chunks, order, least) == chunks,
    decreases order.len(),
{
    if order.len() > 0 {
        lemma_large_nodes_stay(chunks, order.drop_last(), least);
    }
}

/// Every node can still be reached from the root: where each node of the chunks has
/// its parent among them or among the nodes of `out`, so has each group.
pub proof fn lemma_groups_stay_linked(
    chunks: Map<VoxelKey, Seq<Seq<u8>>>,
    least: int,
    out: Set<VoxelKey>,
)
    requires
        chunks.dom().finite(),
        is_linked(chunks, out),
    ensures
        is_linked(grouped(chunks, least), out),
{
    let order = order_of(chunks);
    lemma_order_exists(chunks);
    assert(!order.contains(VoxelKey::root()));
    lemma_settling_keeps_links(chunks, order, least, out);
    lemma_nodes_are_settled(chunks, order, order.len() as int, least);
    assert(order.take(order.len() as int) =~= order);
    let groups = with_nodes_settled(chunks, order, least);
    let left = kept(groups, order);
    if is_small(groups, VoxelKey::root(), least) && left.len() > 0 {
        lemma_kept_nodes(groups, order);
        assert(left.contains(left[0]));
        assert forall|k: VoxelKey| #[trigger]
            groups.contains_key(k) && k != VoxelKey::root() implies k.parent() != left[0] by {
            assert(order.contains(k));
            lemma_first_kept_is_deepest(groups, order, k);
        }
        lemma_merging_keeps_links(groups, left[0], VoxelKey::root(), out);
    }
}

/// Whether the node `above` is reached from the node `key` by going to parents, or is
/// the root.
pub open spec fn is_above(above: VoxelKey, key: VoxelKey, levels: nat) -> bool
    decreases levels,
{
    above == VoxelKey::root() || above == key || levels > 0 && is_above(
        above,
        key.parent(),
        (levels - 1) as nat,
    )
}

proof fn lemma_node_above_is_above(groups: Map<VoxelKey, Seq<Seq<u8>>>, key: VoxelKey, levels: nat)
    ensures
        is_above(node_above(groups, key, levels), key, levels),
    decreases levels,
{
    if levels > 0 {
        if groups.contains_key(key.parent()) {
            assert(is_above(key.parent(), key.parent(), (levels - 1) as nat));
        } else {
            lemma_node_above_is_above(groups, key.parent(), (levels - 1) as nat);
        }
    }
}

proof fn lemma_parents_lead_up(above: VoxelKey, key: VoxelKey, levels: nat, dir: int)
    requires
        is_above(above, key, levels),
        key.on_grid(),
        key.level < DEEPEST_ON_GRID,
        0 <= dir < 8,
    ensures
        is_above(above, key.octant_key(dir), levels + 1),
{
    crate::key::lemma_parent_of_octant(key, dir);
}

proof fn lemma_leaf_is_under(
    groups: Map<VoxelKey, Seq<Seq<u8>>>,
    top: VoxelKey,
    key: VoxelKey,
    levels: nat,
    passed: nat,
) -> (n: nat)
    requires
        is_above(top, key, passed),
        key.on_grid(),
        key.level + levels == DEEPEST_ON_GRID,
    ensures
        is_above(top, leaf_below(groups, key, levels), n),
    decreases levels,
{
    if levels > 0 && octant_from(groups, key, 0) is Some {
        let dir = lemma_octant_has_direction(groups, key, 0);
        let octant = key.octant_key(dir);
        lemma_parents_lead_up(top, key, passed, dir);
        crate::key::lemma_octant_is_on_grid(key, dir);
        lemma_leaf_is_under(groups, top, octant, (levels - 1) as nat, passed + 1)
    } else {
        passed
    }
}

proof fn lemma_octant_has_direction(
    groups: Map<VoxelKey, Seq<Seq<u8>>>,
    key: VoxelKey,
    from: int,
) -> (dir: int)
    requires
        octant_from(groups, key, from) is Some,
        0 <= from,
    ensures
        0 <= dir < 8,
        octant_from(groups, key, from) == Some(key.octant_key(dir)),
    decreases 8 - from,
{
    if groups.contains_key(key.octant_key(from)) {
        from
    } else {
        lemma_octant_has_direction(groups, key, from + 1)
    }
}

/// Records only go up: looking at a node changes nothing, or the records of one node
/// go to a node above it, whose box has the other's box within it.
pub proof fn lemma_records_go_up(groups: Map<VoxelKey, Seq<Seq<u8>>>, key: VoxelKey, least: int)
    requires
        key.on_grid(),
        key.level <= DEEPEST_ON_GRID,
    ensures
        with_node_settled(groups, key, least) == groups || exists|
            from: VoxelKey,
            into: VoxelKey,
            levels: nat,
        |
            with_node_settled(groups, key, least) == #[trigger] merged(groups, from, into)
                && #[trigger] is_above(into, from, levels),
{
    if is_small(groups, key, least) {
        let leaf = leaf_below(groups, key, levels_below(key));
        let above = node_above(groups, key, levels_above(key));
        if leaf != key {
            assert(is_above(key, key, 0));
            let n = lemma_leaf_is_under(groups, key, key, levels_below(key), 0);
            assert(with_node_settled(groups, key, least) == merged(groups, leaf, key) && is_above(
                key,
                leaf,
                n,
            ));
        } else {
            lemma_node_above_is_above(groups, key, levels_above(key));
            assert(with_node_settled(groups, key, least) == merged(groups, key, above) && is_above(
                above,
                key,
                levels_above(key),
            ));
        }
    }
}

/// Whether `of` gives for records one after another what it gives for each part.
pub open spec fn additive(of: spec_fn(Seq<Seq<u8>>) -> nat) -> bool {
    &&& of(Seq::empty()) == 0
    &&& forall|a: Seq<Seq<u8>>, b: Seq<Seq<u8>>| #[trigger] of(a + b) == of(a) + of(b)
}

/// What `of` gives for all groups together.
pub open spec fn total(groups: Map<VoxelKey, Seq<Seq<u8>>>, of: spec_fn(Seq<Seq<u8>>) -> nat) -> nat {
    crate::tally::sum_over(groups, groups.dom(), of)
}

proof fn lemma_merging_keeps_total(
    groups: Map<VoxelKey, Seq<Seq<u8>>>,
    from: VoxelKey,
    into: VoxelKey,
    of: spec_fn(Seq<Seq<u8>>) -> nat,
)
    requires
        groups.dom().finite(),
        groups.contains_key(from),
        from != into,
        additive(of),
    ensures
        total(merged(groups, from, into), of) == total(groups, of),
        merged(groups, from, into).dom().finite(),
{
    let rest = groups.remove(from);
    let records = records_at(groups, into) + groups[from];
    crate::tally::lemma_sum_remove(groups, from, of);
    crate::tally::lemma_sum_remove(rest, into, of);
    crate::tally::lemma_sum_insert(rest, into, records, of);
    assert(of(records) == of(records_at(groups, into)) + of(groups[from]));
}

proof fn lemma_settling_keeps_total(
    chunks: Map<VoxelKey, Seq<Seq<u8>>>,
    order: Seq<VoxelKey>,
    least: int,
    of: spec_fn(Seq<Seq<u8>>) -> nat,
)
    requires
        chunks.dom().finite(),
        additive(of),
        !order.contains(VoxelKey::root()),
    ensures
        total(with_nodes_settled(chunks, order, least), of) == total(chunks, of),
        with_nodes_settled(chunks, order, least).dom().finite(),
    decreases order.len(),
{
    if order.len() > 0 {
        let fewer = order.drop_last();
        let key = order.last();
        assert(order[order.len() - 1] == key);
        assert(!fewer.contains(VoxelKey::root())) by {
            if fewer.contains(VoxelKey::root()) {
                let i = choose|i: int| 0 <= i < fewer.len() && fewer[i] == VoxelKey::root();
                assert(order[i] == VoxelKey::root());
            }
        }
        lemma_settling_keeps_total(chunks, fewer, least, of);
        let groups = with_nodes_settled(chunks, fewer, least);
        let leaf = leaf_below(groups, key, levels_below(key));
        let above = node_above(groups, key, levels_above(key));
        if 0 <= key.level <= DEEPEST_ON_GRID {
            lemma_leaf_is_below(groups, key, levels_below(key));
        }
        lemma_node_is_above(groups, key, levels_above(key));
        if is_small(groups, key, least) {
            if leaf != key {
                lemma_merging_keeps_total(groups, leaf, key, of);
            } else {
                lemma_merging_keeps_total(groups, key, above, of);
            }
        }
    }
}

/// Putting chunks together loses no record and adds none: what counts each record
/// on its own counts the same in the groups as in the chunks.
pub proof fn lemma_grouping_keeps_total(
    chunks: Map<VoxelKey, Seq<Seq<u8>>>,
    least: int,
    of: spec_fn(Seq<Seq<u8>>) -> nat,
)
    requires
        chunks.dom().finite(),
        additive(of),
    ensures
        total(grouped(chunks, least), of) == total(chunks, of),
        grouped(chunks, least).dom().finite(),
{
    let order = order_of(chunks);
    lemma_order_exists(chunks);
    assert(!order.contains(VoxelKey::root()));
    lemma_settling_keeps_total(chunks, order, least, of);
    let groups = with_nodes_settled(chunks, order, least);
    let left = kept(groups, order);
    lemma_kept_nodes(groups, order);
    if is_small(groups, VoxelKey::root(), least) && left.len() > 0 {
        assert(left.contains(left[0]));
        lemma_merging_keeps_total(groups, left[0], VoxelKey::root(), of);
    }
}

/// The groups are listed each once.
pub proof fn lemma_groups_are_listed(
    chunks: Map<VoxelKey, Seq<Seq<u8>>>,
    least: int,
)
    requires
        chunks.dom().finite(),
    ensures
        group_keys(chunks, least).no_duplicates(),
        forall|key: VoxelKey| #[trigger]
            group_keys(chunks, least).contains(key) <==> grouped(chunks, least).contains_key(key),
{
    let order = order_of(chunks);
    lemma_order_exists(chunks);
    let groups = grouped(chunks, least);
    let below = kept(groups, order);
    lemma_kept_nodes(groups, order);
    assert(!order.contains(VoxelKey::root()));
    assert(!below.contains(VoxelKey::root()));
    assert forall|key: VoxelKey| #[trigger] group_keys(chunks, least).contains(key)
        <==> groups.contains_key(key) by {
        if groups.contains_key(key) {
            lemma_groups_are_large(chunks, least, key);
            assert(key != VoxelKey::root() ==> order.contains(key));
            assert(key != VoxelKey::root() ==> below.contains(key));
        }
        let all = group_keys(chunks, least);
        if groups.contains_key(VoxelKey::root()) {
            if below.contains(key) {
                let i = choose|i: int| 0 <= i < below.len() && below[i] == key;
                assert(all[i] == key);
            }
            assert(all[all.len() - 1] == VoxelKey::root());
            if all.contains(key) && key != VoxelKey::root() {
                let i = choose|i: int| 0 <= i < all.len() && all[i] == key;
                assert(below[i] == key);
            }
        }
    }
}

/// The records of chunks that are put together, one after another.
pub open spec fn part_records(parts: Seq<(VoxelKey, ChunkBuffer)>) -> Seq<Seq<u8>>
    decreases parts.len(),
{
    if parts.len() == 0 {
        Seq::empty()
    } else {
        part_records(parts.drop_last()) + parts.last().1@.records
    }
}

/// Whether each chunk is a chunk of its key.
pub open spec fn parts_wf(parts: Seq<(VoxelKey, ChunkBuffer)>) -> bool {
    forall|i: int| 0 <= i < parts.len() ==> (#[trigger] parts[i]).1.wf(parts[i].0)
}

proof fn lemma_parts_one_after_another(
    a: Seq<(VoxelKey, ChunkBuffer)>,
    b: Seq<(VoxelKey, ChunkBuffer)>,
)
    ensures
        part_records(a + b) == part_records(a) + part_records(b),
    decreases b.len(),
{
    if b.len() == 0 {
        assert(a + b =~= a);
        assert(part_records(a) + part_records(b) =~= part_records(a));
    } else {
        assert((a + b).drop_last() =~= a + b.drop_last());
        lemma_parts_one_after_another(a, b.drop_last());
        assert(part_records(a + b) =~= part_records(a) + part_records(b));
    }
}

/// A node of the file that is closed: the chunks whose records it has.
pub struct Group {
    /// The node.
    pub key: VoxelKey,
    /// The chunks, each with the node that it was the chunk of.
    pub parts: Vec<(VoxelKey, ChunkBuffer)>,
}

impl Group {
    /// The records of the node, in order.
    pub open spec fn records(self) -> Seq<Seq<u8>> {
        part_records(self.parts@)
    }

    /// Whether each chunk is a chunk of its key.
    pub open spec fn wf(self) -> bool {
        parts_wf(self.parts@)
    }

    /// The group of one chunk.
    pub(crate) fn of_chunk(key: VoxelKey, chunk: ChunkBuffer) -> (res: Group)
        requires
            chunk.wf(key),
        ensures
            res.key == key,
            res.records() == chunk@.records,
            res.wf(),
    {
        let ghost records: Seq<Seq<u8>> = chunk@.records;
        let mut parts: Vec<(VoxelKey, ChunkBuffer)> = Vec::new();
        parts.push((key, chunk));
        proof {
            let none = Seq::<(VoxelKey, ChunkBuffer)>::empty();
            assert(parts@.drop_last() =~= none);
            assert(part_records(none) + records =~= records);
        }
        Group { key, parts }
    }
}

/// Whether `list` has the groups of `keys`, in this order.
pub open spec fn lists(
    groups: Map<VoxelKey, Seq<Seq<u8>>>,
    keys: Seq<VoxelKey>,
    list: Seq<Group>,
) -> bool {
    &&& list.len() == keys.len()
    &&& forall|i: int|
        0 <= i < list.len() ==> {
            &&& (#[trigger] list[i]).key == keys[i]
            &&& list[i].records() == groups[keys[i]]
            &&& list[i].wf()
        }
}

/// Whether every group of a list has `least` points or more, where there are two or
/// more.
pub open spec fn none_is_small(list: Seq<Group>, least: int) -> bool {
    list.len() > 1 ==> forall|i: int|
        0 <= i < list.len() ==> (#[trigger] list[i]).records().len() >= least
}

proof fn lemma_listed_groups_are_large(
    chunks: Map<VoxelKey, Seq<Seq<u8>>>,
    least: int,
    list: Seq<Group>,
)
    requires
        chunks.dom().finite(),
        lists(grouped(chunks, least), group_keys(chunks, least), list),
    ensures
        none_is_small(list, least),
{
    let keys = group_keys(chunks, least);
    let groups = grouped(chunks, least);
    lemma_groups_are_listed(chunks, least);
    if list.len() > 1 {
        assert forall|i: int| 0 <= i < list.len() implies (#[trigger] list[i]).records().len()
            >= least by {
            let other: int = if i == 0 {
                1
            } else {
                0
            };
            assert(keys.contains(keys[i]));
            assert(keys.contains(keys[other]));
            lemma_groups_are_large(chunks, least, keys[i]);
            assert(groups.dom().contains(keys[other]));
            assert(keys[i] != keys[other]);
        }
    }
}

/// The records of each chunk.
pub open spec fn chunk_records(chunks: Map<VoxelKey, ChunkView>) -> Map<VoxelKey, Seq<Seq<u8>>> {
    Map::new(|key: VoxelKey| chunks.contains_key(key), |key: VoxelKey| chunks[key].records)
}

/// The chunks that each node is to have.
struct Groups {
    nodes: KeyMap<Vec<(VoxelKey, ChunkBuffer)>>,
}

impl View for Groups {
    type V = Map<VoxelKey, Seq<Seq<u8>>>;

    closed spec fn view(&self) -> Map<VoxelKey, Seq<Seq<u8>>> {
        Map::new(
            |key: VoxelKey| self.nodes@.contains_key(key),
            |key: VoxelKey| part_records(self.nodes@[key]@),
        )
    }
}

impl Groups {
    spec fn wf(&self) -> bool {
        forall|key: VoxelKey| #[trigger]
            self.nodes@.contains_key(key) ==> parts_wf(self.nodes@[key]@)
    }

    fn first_octant(&self, key: &VoxelKey) -> (res: Option<VoxelKey>)
        requires
            key.level < i32::MAX,
        ensures
            res == octant_from(self@, *key, 0),
    {
        let mut dir: i32 = 0;
        while dir < 8
            invariant
                0 <= dir <= 8,
                key.level < i32::MAX,
                octant_from(self@, *key, 0) == octant_from(self@, *key, dir as int),
            decreases 8 - dir,
        {
            let octant: VoxelKey = key.child(dir);
            if self.nodes.contains_key(&octant) {
                return Some(octant);
            }
            dir = dir + 1;
        }
        None
    }

    fn leaf_under(&self, key: &VoxelKey) -> (res: VoxelKey)
        ensures
            res == leaf_below(self@, *key, levels_below(*key)),
    {
        if key.level < 0 || key.level > DEEPEST_ON_GRID {
            return *key;
        }
        let mut at: VoxelKey = *key;
        let mut levels: i32 = DEEPEST_ON_GRID - key.level;
        while levels > 0
            invariant
                0 <= levels,
                at.level + levels <= DEEPEST_ON_GRID,
                leaf_below(self@, *key, levels_below(*key)) == leaf_below(self@, at, levels as nat),
            decreases levels,
        {
            proof {
                lemma_octant_is_there(self@, at, 0);
            }
            match self.first_octant(&at) {
                Some(octant) => {
                    at = octant;
                    levels = levels - 1;
                },
                None => {
                    return at;
                },
            }
        }
        at
    }

    fn nearest_above(&self, key: &VoxelKey) -> (res: VoxelKey)
        ensures
            res == node_above(self@, *key, levels_above(*key)),
    {
        let root: VoxelKey = VoxelKey { level: 0, x: 0, y: 0, z: 0 };
        if key.level < 0 || key.level > DEEPEST_ON_GRID {
            return root;
        }
        let mut at: VoxelKey = *key;
        let mut levels: i32 = key.level;
        while levels > 0
            invariant
                0 <= levels,
                at.level == levels,
                node_above(self@, *key, levels_above(*key)) == node_above(self@, at, levels as nat),
            decreases levels,
        {
            at = at.enclosing();
            levels = levels - 1;
            if self.nodes.contains_key(&at) {
                return at;
            }
        }
        root
    }

    fn is_below_size(&self, key: &VoxelKey, least: i32) -> (res: bool)
        requires
            self.wf(),
        ensures
            res == is_small(self@, *key, least as int),
    {
        if least <= 0 {
            return false;
        }
        match self.nodes.get(key) {
            None => false,
            Some(parts) => {
                assert(self.nodes@.contains_key(*key));
                let mut points: u64 = 0;
                let mut i: usize = 0;
                while i < parts.len()
                    invariant
                        0 <= i <= parts@.len(),
                        parts_wf(parts@),
                        self@.contains_key(*key),
                        self@[*key] == part_records(parts@),
                        points == part_records(parts@.take(i as int)).len(),
                        points < least,
                    decreases parts@.len() - i,
                {
                    assert(parts@.take(i + 1).drop_last() =~= parts@.take(i as int));
                    points = points + parts[i].1.point_count(&parts[i].0) as u64;
                    i = i + 1;
                    if points >= least as u64 {
                        proof {
                            lemma_parts_one_after_another(
                                parts@.take(i as int),
                                parts@.skip(i as int),
                            );
                            assert(parts@.take(i as int) + parts@.skip(i as int) =~= parts@);
                        }
                        return false;
                    }
                }
                assert(parts@.take(parts@.len() as int) =~= parts@);
                true
            },
        }
    }

    fn merge(&mut self, from: &VoxelKey, into: VoxelKey)
        requires
            old(self).wf(),
            *from != into,
        ensures
            final(self).wf(),
            final(self)@ == merged(old(self)@, *from, into),
    {
        let mut parts: Vec<(VoxelKey, ChunkBuffer)> = match self.nodes.remove(&into) {
            Some(parts) => parts,
            None => Vec::new(),
        };
        let mut more: Vec<(VoxelKey, ChunkBuffer)> = match self.nodes.remove(from) {
            Some(more) => more,
            None => Vec::new(),
        };
        let ghost first: Seq<(VoxelKey, ChunkBuffer)> = parts@;
        let ghost second: Seq<(VoxelKey, ChunkBuffer)> = more@;
        proof {
            let before = *old(self);
            if before.nodes@.contains_key(into) {
                assert(parts_wf(before.nodes@[into]@));
            }
            if before.nodes@.contains_key(*from) {
                assert(parts_wf(before.nodes@[*from]@));
            }
            lemma_parts_one_after_another(first, second);
        }
        parts.append(&mut more);
        proof {
            assert(parts@ =~= first + second);
            assert forall|i: int| 0 <= i < parts@.len() implies (#[trigger] parts@[i]).1.wf(
                parts@[i].0,
            ) by {
                if i < first.len() {
                    assert(first[i].1.wf(first[i].0));
                } else {
                    assert(second[i - first.len()].1.wf(second[i - first.len()].0));
                }
            }
        }
        self.nodes.insert(into, parts);
        proof {
            assert(self@ =~= merged(old(self)@, *from, into));
        }
    }

    fn settle_node(&mut self, key: &VoxelKey, least: i32)
        requires
            old(self).wf(),
            *key != VoxelKey::root(),
        ensures
            final(self).wf(),
            final(self)@ == with_node_settled(old(self)@, *key, least as int),
    {
        if self.is_below_size(key, least) {
            let leaf: VoxelKey = self.leaf_under(key);
            if leaf != *key {
                self.merge(&leaf, *key);
            } else {
                let above: VoxelKey = self.nearest_above(key);
                proof {
                    lemma_node_is_above(self@, *key, levels_above(*key));
                }
                self.merge(key, above);
            }
        }
    }

    fn settle_nodes(&mut self, order: &Vec<VoxelKey>, least: i32)
        requires
            old(self).wf(),
            !order@.contains(VoxelKey::root()),
        ensures
            final(self).wf(),
            final(self)@ == with_nodes_settled(old(self)@, order@, least as int),
    {
        let mut i: usize = 0;
        while i < order.len()
            invariant
                0 <= i <= order@.len(),
                self.wf(),
                !order@.contains(VoxelKey::root()),
                self@ == with_nodes_settled(old(self)@, order@.take(i as int), least as int),
            decreases order@.len() - i,
        {
            assert(order@.take(i + 1).drop_last() =~= order@.take(i as int));
            assert(order@.contains(order@[i as int]));
            self.settle_node(&order[i], least);
            i = i + 1;
        }
        assert(order@.take(order@.len() as int) =~= order@);
    }

    fn with_chunks(
        list: Vec<(VoxelKey, ChunkBuffer)>,
        Ghost(chunks): Ghost<Map<VoxelKey, ChunkView>>,
    ) -> (res: (Groups, Vec<VoxelKey>))
        requires
            crate::chunk_store::drained(chunks, list@),
        ensures
            res.0.wf(),
            res.0@ == chunk_records(chunks),
            forall|key: VoxelKey| #[trigger]
                res.1@.contains(key) <==> chunks.contains_key(key) && key != VoxelKey::root(),
    {
        let root: VoxelKey = VoxelKey { level: 0, x: 0, y: 0, z: 0 };
        let mut groups: Groups = Groups { nodes: KeyMap::new() };
        let mut keys: Vec<VoxelKey> = Vec::new();
        let ghost whole: Seq<(VoxelKey, ChunkBuffer)> = list@;
        let mut rest: Vec<(VoxelKey, ChunkBuffer)> = list;
        while rest.len() > 0
            invariant
                root == VoxelKey::root(),
                crate::chunk_store::drained(chunks, whole),
                rest@.len() <= whole.len(),
                rest@ == whole.take(rest@.len() as int),
                groups.wf(),
                forall|key: VoxelKey| #[trigger]
                    groups@.contains_key(key) ==> chunks.contains_key(key) && groups@[key]
                        == chunks[key].records,
                forall|i: int|
                    rest@.len() <= i < whole.len() ==> groups@.contains_key((#[trigger] whole[i]).0),
                forall|key: VoxelKey| #[trigger]
                    keys@.contains(key) <==> groups@.contains_key(key) && key != root,
            decreases rest@.len(),
        {
            let ghost before: Seq<(VoxelKey, ChunkBuffer)> = rest@;
            let ghost groups_before: Map<VoxelKey, Seq<Seq<u8>>> = groups@;
            let ghost keys_before: Seq<VoxelKey> = keys@;
            if let Some((key, chunk)) = rest.pop() {
                let ghost last: int = before.len() - 1;
                assert(before[last] == whole[last]);
                assert(rest@ =~= whole.take(last));
                let ghost records: Seq<Seq<u8>> = chunk@.records;
                groups.nodes.insert(key, Group::of_chunk(key, chunk).parts);
                assert(groups@ =~= groups_before.insert(key, records));
                if key != root {
                    keys.push(key);
                }
                proof {
                    assert forall|k: VoxelKey| #[trigger] keys@.contains(k)
                        <==> groups@.contains_key(k) && k != root by {
                        assert(keys_before.contains(k) <==> groups_before.contains_key(k) && k
                            != root);
                        if key != root {
                            assert(keys@[keys@.len() - 1] == key);
                            if keys_before.contains(k) {
                                let i = choose|i: int|
                                    0 <= i < keys_before.len() && keys_before[i] == k;
                                assert(keys@[i] == k);
                            }
                            if keys@.contains(k) && k != key {
                                let i = choose|i: int| 0 <= i < keys@.len() && keys@[i] == k;
                                assert(keys_before[i] == k);
                            }
                        }
                    }
                }
            }
        }
        proof {
            assert forall|key: VoxelKey| chunks.contains_key(key) implies #[trigger] groups@.contains_key(
                key,
            ) by {
                let i = choose|i: int| 0 <= i < whole.len() && (#[trigger] whole[i]).0 == key;
                assert(groups@.contains_key(whole[i].0));
            }
            assert(groups@ =~= chunk_records(chunks));
        }
        (groups, keys)
    }

    fn into_list(self, keys: &Vec<VoxelKey>) -> (res: Vec<Group>)
        requires
            self.wf(),
            keys@.no_duplicates(),
            forall|i: int| 0 <= i < keys@.len() ==> self@.contains_key(#[trigger] keys@[i]),
        ensures
            lists(self@, keys@, res@),
    {
        let mut groups: Groups = self;
        let mut res: Vec<Group> = Vec::new();
        let mut i: usize = 0;
        while i < keys.len()
            invariant
                0 <= i <= keys@.len(),
                keys@.no_duplicates(),
                groups.wf(),
                res@.len() == i,
                forall|j: int|
                    0 <= j < i ==> {
                        &&& (#[trigger] res@[j]).key == keys@[j]
                        &&& res@[j].records() == self@[keys@[j]]
                        &&& res@[j].wf()
                    },
                forall|j: int|
                    i <= j < keys@.len() ==> groups@.contains_key(#[trigger] keys@[j])
                        && groups@[keys@[j]] == self@[keys@[j]],
            decreases keys@.len() - i,
        {
            let key: VoxelKey = keys[i];
            let ghost before: Groups = groups;
            assert(groups@.contains_key(keys@[i as int]));
            if let Some(parts) = groups.nodes.remove(&key) {
                assert(parts_wf(before.nodes@[key]@));
                res.push(Group { key, parts });
            }
            assert forall|j: int| i < j < keys@.len() implies groups@.contains_key(#[trigger] keys@[j])
                && groups@[keys@[j]] == self@[keys@[j]] by {
                assert(before@.contains_key(keys@[j]));
                assert(keys@[j] != keys@[i as int]);
            }
            i = i + 1;
        }
        res
    }

    fn kept_of(&self, order: &Vec<VoxelKey>) -> (res: Vec<VoxelKey>)
        ensures
            res@ == kept(self@, order@),
    {
        let mut res: Vec<VoxelKey> = Vec::new();
        let mut i: usize = 0;
        while i < order.len()
            invariant
                0 <= i <= order@.len(),
                res@ == kept(self@, order@.take(i as int)),
            decreases order@.len() - i,
        {
            assert(order@.take(i + 1).drop_last() =~= order@.take(i as int));
            if self.nodes.contains_key(&order[i]) {
                res.push(order[i]);
            }
            i = i + 1;
        }
        assert(order@.take(order@.len() as int) =~= order@);
        res
    }
}

/// Puts the chunks of `list` together, so that no node has fewer than `least`
/// points. The deepest node comes first, the root last.
pub(crate) fn gather(
    list: Vec<(VoxelKey, ChunkBuffer)>,
    least: i32,
    Ghost(chunks): Ghost<Map<VoxelKey, ChunkView>>,
) -> (res: Vec<Group>)
    requires
        chunks.dom().finite(),
        crate::chunk_store::drained(chunks, list@),
    ensures
        lists(
            grouped(chunk_records(chunks), least as int),
            group_keys(chunk_records(chunks), least as int),
            res@,
        ),
        none_is_small(res@, least as int),
{
    let root: VoxelKey = VoxelKey { level: 0, x: 0, y: 0, z: 0 };
    let ghost records: Map<VoxelKey, Seq<Seq<u8>>> = chunk_records(chunks);
    let (mut groups, keys) = Groups::with_chunks(list, Ghost(chunks));
    let order: Vec<VoxelKey> = crate::order::deepest_first(&keys);
    proof {
        assert forall|key: VoxelKey| #[trigger] order@.contains(key) <==> records.contains_key(key)
            && key != root by {
            assert(keys@.contains(key) <==> chunks.contains_key(key) && key != root);
        }
        assert(orders(records, order@));
        lemma_order_is(records, order@);
        assert(!order@.contains(root));
        assert(records.dom() =~= chunks.dom());
    }
    groups.settle_nodes(&order, least);
    if groups.is_below_size(&root, least) {
        let left: Vec<VoxelKey> = groups.kept_of(&order);
        if left.len() > 0 {
            proof {
                lemma_kept_nodes(groups@, order@);
                assert(left@.contains(left@[0]));
            }
            groups.merge(&left[0], root);
        }
    }
    assert(groups@ == grouped(records, least as int));
    let mut all: Vec<VoxelKey> = groups.kept_of(&order);
    if groups.nodes.contains_key(&root) {
        all.push(root);
    }
    proof {
        lemma_groups_are_listed(records, least as int);
        assert(all@ == group_keys(records, least as int));
        assert forall|i: int| 0 <= i < all@.len() implies groups@.contains_key(#[trigger] all@[i]) by {
            assert(all@.contains(all@[i]));
        }
    }
    let res: Vec<Group> = groups.into_list(&all);
    proof {
        lemma_listed_groups_are_large(records, least as int, res@);
    }
    res
}

/// Where one node takes in the records of another, they follow its own, the other node is
/// gone, and all others stay as they are.
pub proof fn lemma_merging_appends(
    groups: Map<VoxelKey, Seq<Seq<u8>>>,
    from: VoxelKey,
    into: VoxelKey,
    other: VoxelKey,
)
    requires
        groups.contains_key(from),
        groups.contains_key(into),
        from != into,
        other != from,
        other != into,
    ensures
        merged(groups, from, into)[into] == groups[into] + groups[from],
        !merged(groups, from, into).contains_key(from),
        merged(groups, from, into).contains_key(other) <==> groups.contains_key(other),
        groups.contains_key(other) ==> merged(groups, from, into)[other] == groups[other],
{
}

/// A node that is not there or has enough points is left alone; one that has too few
/// takes records in, or gives all of its own away.
pub proof fn lemma_only_small_nodes_change(
    groups: Map<VoxelKey, Seq<Seq<u8>>>,
    key: VoxelKey,
    least: int,
)
    requires
        key != VoxelKey::root(),
    ensures
        !groups.contains_key(key) || groups[key].len() >= least ==> with_node_settled(
            groups,
            key,
            least,
        ) == groups,
        groups.contains_key(key) && groups[key].len() < least ==> {
            let after = with_node_settled(groups, key, least);
            ||| !after.contains_key(key)
            ||| exists|leaf: VoxelKey| #[trigger]
                groups.contains_key(leaf) && leaf.level > key.level && !after.contains_key(leaf)
                    && after[key] == groups[key] + groups[leaf]
        },
{
    if is_small(groups, key, least) {
        let leaf = leaf_below(groups, key, levels_below(key));
        if 0 <= key.level <= DEEPEST_ON_GRID {
            lemma_leaf_is_below(groups, key, levels_below(key));
        }
        lemma_node_is_above(groups, key, levels_above(key));
        if leaf != key {
            assert(groups.contains_key(leaf));
        }
    }
}

/// A group has the records of its chunks, one chunk after another.
pub proof fn lemma_group_has_the_records_of_its_chunks(
    group: Group,
    first: Group,
    key: VoxelKey,
    chunk: ChunkBuffer,
)
    requires
        group.parts@ == first.parts@ + seq![(key, chunk)],
    ensures
        group.records() == first.records() + chunk@.records,
        first.parts@.len() == 0 ==> first.records().len() == 0,
{
    assert(group.parts@.drop_last() =~= first.parts@);
    assert(group.parts@.last() == (key, chunk));
}

/// The records of a node that is too small and has nothing below it go to its parent,
/// where that is there, and else to where those of the parent would go.
pub proof fn lemma_nearest_node_takes_records_in(
    groups: Map<VoxelKey, Seq<Seq<u8>>>,
    key: VoxelKey,
)
    requires
        1 <= key.level <= 31,
    ensures
        groups.contains_key(key.parent()) ==> node_above(groups, key, levels_above(key))
            == key.parent(),
        !groups.contains_key(key.parent()) ==> node_above(groups, key, levels_above(key))
            == node_above(groups, key.parent(), levels_above(key.parent())),
        node_above(groups, VoxelKey::root(), levels_above(VoxelKey::root())) == VoxelKey::root(),
{
}

} // verus!
