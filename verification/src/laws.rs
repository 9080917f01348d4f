//! What holds of a file as a whole.
//!
//! The steps of a writer lead from ledger to ledger: where a point is offered, the
//! writer comes to the ledger with it, however many steps that takes. So what holds
//! of ledgers holds of every writer between two points, and of every closed file.

use crate::hierarchy::Entry;
use crate::key::VoxelKey;
use crate::ledger::{Answers, Ledger};
use crate::session::SessionView;
use crate::writer::{Placement, PointInfo, WriterView};
use vstd::prelude::*;

verus! {

/// How many records there are.
pub open spec fn lengths() -> spec_fn(Seq<Seq<u8>>) -> nat {
    |records: Seq<Seq<u8>>| records.len()
}

/// How often `record` is among the records.
pub open spec fn occurrences_of(record: Seq<u8>) -> spec_fn(Seq<Seq<u8>>) -> nat {
    |records: Seq<Seq<u8>>| records.to_multiset().count(record)
}

proof fn lemma_counts_are_additive(record: Seq<u8>)
    ensures
        crate::grouping::additive(lengths()),
        crate::grouping::additive(occurrences_of(record)),
{
    broadcast use vstd::seq_lib::group_to_multiset_ensures;

    assert forall|a: Seq<Seq<u8>>, b: Seq<Seq<u8>>| #[trigger]
        occurrences_of(record)(a + b) == occurrences_of(record)(a) + occurrences_of(record)(b) by {
        vstd::seq_lib::lemma_multiset_commutative(a, b);
    }
    assert(Seq::<Seq<u8>>::empty().to_multiset().len() == 0);
}

/// What `of` gives for all that was handed out.
pub open spec fn handed_total(
    handed: Seq<(VoxelKey, Seq<Seq<u8>>)>,
    of: spec_fn(Seq<Seq<u8>>) -> nat,
) -> nat
    decreases handed.len(),
{
    if handed.len() == 0 {
        0
    } else {
        handed_total(handed.drop_last(), of) + of(handed.last().1)
    }
}

/// What `of` gives for all records of a ledger.
pub open spec fn held(ledger: Ledger, of: spec_fn(Seq<Seq<u8>>) -> nat) -> nat {
    crate::grouping::total(ledger.chunks, of) + handed_total(ledger.handed, of)
}

proof fn lemma_handed_totals_add_up(
    a: Seq<(VoxelKey, Seq<Seq<u8>>)>,
    b: Seq<(VoxelKey, Seq<Seq<u8>>)>,
    of: spec_fn(Seq<Seq<u8>>) -> nat,
)
    ensures
        handed_total(a + b, of) == handed_total(a, of) + handed_total(b, of),
    decreases b.len(),
{
    if b.len() == 0 {
        assert(a + b =~= a);
    } else {
        assert((a + b).drop_last() =~= a + b.drop_last());
        lemma_handed_totals_add_up(a, b.drop_last(), of);
    }
}

proof fn lemma_record_is_held(
    ledger: Ledger,
    key: VoxelKey,
    full: bool,
    record: Seq<u8>,
    of: spec_fn(Seq<Seq<u8>>) -> nat,
)
    requires
        ledger.chunks.dom().finite(),
        crate::grouping::additive(of),
    ensures
        held(ledger.recorded(key, full, record), of) == held(ledger, of) + of(seq![record]),
        ledger.recorded(key, full, record).chunks.dom().finite(),
{
    let before = crate::grouping::records_at(ledger.chunks, key);
    let grown = before.push(record);
    assert(grown =~= before + seq![record]);
    crate::tally::lemma_sum_remove(ledger.chunks, key, of);
    crate::tally::lemma_sum_insert(ledger.chunks, key, grown, of);
    assert(ledger.handed.push((key, grown)).drop_last() =~= ledger.handed);
}

/// A point that is taken in adds its own record, and nothing else; a point that is
/// left out adds nothing.
pub proof fn lemma_point_adds_its_record(
    ledger: Ledger,
    greedy: bool,
    point: PointInfo,
    record: Seq<u8>,
    answers: Answers,
    of: spec_fn(Seq<Seq<u8>>) -> nat,
)
    requires
        ledger.chunks.dom().finite(),
        crate::grouping::additive(of),
    ensures
        ({
            let after = ledger.taken(greedy, point, record, answers);
            let taken = ledger.offer(point).taken();
            &&& after.chunks.dom().finite()
            &&& held(after, of) == held(ledger, of) + (if taken {
                of(seq![record])
            } else {
                0
            })
            &&& after.points == ledger.points + (if taken {
                1nat
            } else {
                0
            })
        }),
{
    let offer = ledger.offer(point);
    let noted = Ledger {
        error: crate::ingest::noted(ledger.error, offer, ledger.format),
        ..ledger
    };
    let counted = Ledger {
        points: ledger.points + 1,
        info: crate::writer::with_time(ledger.info, point.gps_time),
        ..noted
    };
    let p = point.position;
    if offer.taken() {
        if greedy {
            let i = counted.octree.find(0, p);
            if counted.octree.nodes[i].full(counted.max_node_size) {
                let divided = counted.divided(i, answers);
                lemma_put_adds_its_record(divided, divided.octree.find(0, p), record, of);
            } else {
                lemma_put_adds_its_record(counted, i, record, of);
            }
        } else {
            let root = crate::voxel::VoxelNode { key: VoxelKey::root(), bounds: ledger.cube() };
            let end = crate::voxel::descent(
                counted.claimed,
                root,
                p,
                crate::ledger::cells_of(answers, p, counted.grid()),
                crate::ledger::centers_of(answers),
                counted.max_level,
            );
            lemma_record_is_held(
                Ledger { claimed: end.claimed, ..counted },
                end.node.key,
                false,
                record,
                of,
            );
        }
    }
}

proof fn lemma_put_adds_its_record(
    ledger: Ledger,
    i: int,
    record: Seq<u8>,
    of: spec_fn(Seq<Seq<u8>>) -> nat,
)
    requires
        ledger.chunks.dom().finite(),
        crate::grouping::additive(of),
    ensures
        held(ledger.put(i, record), of) == held(ledger, of) + of(seq![record]),
        ledger.put(i, record).chunks.dom().finite(),
        ledger.put(i, record).points == ledger.points,
{
    let node = ledger.octree.nodes[i];
    lemma_record_is_held(
        Ledger { octree: ledger.octree.placed(i), ..ledger },
        node.entry.key,
        node.with_point().full(ledger.max_node_size) && (node.entry.key.level != 0
            || ledger.min_node_size == 1),
        record,
        of,
    );
}

/// The records of the points that are taken in, of points that are offered one after
/// another.
pub open spec fn accepted(
    ledger: Ledger,
    greedy: bool,
    points: Seq<(PointInfo, Seq<u8>)>,
    answers: Answers,
) -> Seq<Seq<u8>>
    decreases points.len(),
{
    if points.len() == 0 {
        Seq::empty()
    } else {
        let fewer = points.drop_last();
        let before = accepted(ledger, greedy, fewer, answers);
        if ledger.taken_all(greedy, fewer, answers).offer(points.last().0).taken() {
            before.push(points.last().1)
        } else {
            before
        }
    }
}

/// Points that are offered one after another add the records of those that are
/// taken in, and nothing else.
pub proof fn lemma_points_add_their_records(
    ledger: Ledger,
    greedy: bool,
    points: Seq<(PointInfo, Seq<u8>)>,
    answers: Answers,
    of: spec_fn(Seq<Seq<u8>>) -> nat,
)
    requires
        ledger.chunks.dom().finite(),
        crate::grouping::additive(of),
    ensures
        ({
            let after = ledger.taken_all(greedy, points, answers);
            let records = accepted(ledger, greedy, points, answers);
            &&& after.chunks.dom().finite()
            &&& held(after, of) == held(ledger, of) + of(records)
            &&& after.points == ledger.points + records.len()
        }),
    decreases points.len(),
{
    if points.len() > 0 {
        let fewer = points.drop_last();
        let before = accepted(ledger, greedy, fewer, answers);
        lemma_points_add_their_records(ledger, greedy, fewer, answers, of);
        lemma_point_adds_its_record(
            ledger.taken_all(greedy, fewer, answers),
            greedy,
            points.last().0,
            points.last().1,
            answers,
            of,
        );
        assert(before.push(points.last().1) =~= before + seq![points.last().1]);
    }
}

/// Closing a file hands out all that is left, and nothing else.
pub proof fn lemma_closing_hands_out_all(ledger: Ledger, of: spec_fn(Seq<Seq<u8>>) -> nat)
    requires
        ledger.chunks.dom().finite(),
        crate::grouping::additive(of),
    ensures
        handed_total(ledger.closed().handed, of) == held(ledger, of),
{
    let least = ledger.min_node_size as int;
    let groups = crate::grouping::grouped(ledger.chunks, least);
    let keys = crate::grouping::group_keys(ledger.chunks, least);
    crate::grouping::lemma_grouping_keeps_total(ledger.chunks, least, of);
    crate::grouping::lemma_groups_are_listed(ledger.chunks, least);
    lemma_left_has_all(groups, keys, ledger.left(), of);
    lemma_handed_totals_add_up(ledger.handed, ledger.left(), of);
}

proof fn lemma_left_has_all(
    groups: Map<VoxelKey, Seq<Seq<u8>>>,
    keys: Seq<VoxelKey>,
    left: Seq<(VoxelKey, Seq<Seq<u8>>)>,
    of: spec_fn(Seq<Seq<u8>>) -> nat,
)
    requires
        groups.dom().finite(),
        keys.no_duplicates(),
        forall|key: VoxelKey| #[trigger] keys.contains(key) <==> groups.contains_key(key),
        left.len() == keys.len(),
        forall|i: int|
            0 <= i < left.len() ==> #[trigger] left[i] == (
                keys[keys.len() - 1 - i],
                groups[keys[keys.len() - 1 - i]],
            ),
    ensures
        handed_total(left, of) == crate::grouping::total(groups, of),
    decreases keys.len(),
{
    if keys.len() == 0 {
        assert forall|key: VoxelKey| !#[trigger] groups.contains_key(key) by {
            assert(!keys.contains(key));
        }
        assert(groups.dom() =~= Set::<VoxelKey>::empty());
    } else {
        let key = keys[0];
        let fewer = keys.drop_first();
        let rest = groups.remove(key);
        assert(keys.contains(key));
        crate::tally::lemma_sum_remove(groups, key, of);
        assert forall|k: VoxelKey| #[trigger] fewer.contains(k) <==> rest.contains_key(k) by {
            if fewer.contains(k) {
                let i = choose|i: int| 0 <= i < fewer.len() && fewer[i] == k;
                assert(keys[i + 1] == k);
                assert(keys.contains(k));
            }
            if rest.contains_key(k) {
                assert(keys.contains(k));
                let i = choose|i: int| 0 <= i < keys.len() && keys[i] == k;
                assert(fewer[i - 1] == k);
            }
        }
        assert forall|i: int| 0 <= i < left.drop_last().len() implies #[trigger] left.drop_last()[i]
            == (fewer[fewer.len() - 1 - i], rest[fewer[fewer.len() - 1 - i]]) by {
            assert(left[i] == (keys[keys.len() - 1 - i], groups[keys[keys.len() - 1 - i]]));
            assert(keys[keys.len() - 1 - i] != keys[0]);
        }
        lemma_left_has_all(rest, fewer, left.drop_last(), of);
        assert(left[left.len() - 1] == (keys[0], groups[keys[0]]));
    }
}

/// All records that were handed out, node after node.
pub open spec fn handed_records(handed: Seq<(VoxelKey, Seq<Seq<u8>>)>) -> Seq<Seq<u8>>
    decreases handed.len(),
{
    if handed.len() == 0 {
        Seq::empty()
    } else {
        handed_records(handed.drop_last()) + handed.last().1
    }
}

proof fn lemma_handed_total_is_of_records(
    handed: Seq<(VoxelKey, Seq<Seq<u8>>)>,
    of: spec_fn(Seq<Seq<u8>>) -> nat,
)
    requires
        crate::grouping::additive(of),
    ensures
        of(handed_records(handed)) == handed_total(handed, of),
    decreases handed.len(),
{
    if handed.len() > 0 {
        lemma_handed_total_is_of_records(handed.drop_last(), of);
    }
}

/// A closed file has exactly the records of the points that were taken in: each as
/// often as it was taken in, and no others.
pub proof fn lemma_closed_file_has_what_was_taken_in(
    ledger: Ledger,
    greedy: bool,
    points: Seq<(PointInfo, Seq<u8>)>,
    answers: Answers,
)
    requires
        ledger.chunks == Map::<VoxelKey, Seq<Seq<u8>>>::empty(),
        ledger.handed == Seq::<(VoxelKey, Seq<Seq<u8>>)>::empty(),
        ledger.points == 0,
    ensures
        ({
            let closed = ledger.taken_all(greedy, points, answers).closed();
            let records = accepted(ledger, greedy, points, answers);
            &&& handed_records(closed.handed).to_multiset() == records.to_multiset()
            &&& handed_total(closed.handed, lengths()) == closed.points
            &&& closed.points == records.len()
            &&& closed.chunks == Map::<VoxelKey, Seq<Seq<u8>>>::empty()
        }),
{
    let after = ledger.taken_all(greedy, points, answers);
    let records = accepted(ledger, greedy, points, answers);
    let handed = after.closed().handed;
    assert(ledger.chunks.dom() =~= Set::<VoxelKey>::empty());
    lemma_counts_are_additive(Seq::empty());
    lemma_points_add_their_records(ledger, greedy, points, answers, lengths());
    lemma_closing_hands_out_all(after, lengths());
    assert forall|record: Seq<u8>| #[trigger] handed_records(handed).to_multiset().count(record)
        == records.to_multiset().count(record) by {
        let of = occurrences_of(record);
        lemma_counts_are_additive(record);
        lemma_points_add_their_records(ledger, greedy, points, answers, of);
        lemma_closing_hands_out_all(after, of);
        lemma_handed_total_is_of_records(handed, of);
    }
    assert(handed_records(handed).to_multiset() =~= records.to_multiset());
}

/// Whether no key of the octree wraps.
pub open spec fn is_shallow(ledger: Ledger) -> bool {
    forall|i: int|
        0 <= i < ledger.octree.nodes.len() ==> (#[trigger] ledger.octree.nodes[i]).entry.key.level
            <= crate::grouping::DEEPEST_ON_GRID
}

/// Whether octree node `i` is full, and not the root where a node can be too small.
pub open spec fn is_out(ledger: Ledger, i: int) -> bool {
    ledger.octree.nodes[i].full(ledger.max_node_size) && (i != 0 || ledger.min_node_size == 1)
}

/// Whether `key` belongs to a node of the octree.
pub open spec fn has_node(ledger: Ledger, key: VoxelKey) -> bool {
    exists|i: int|
        0 <= i < ledger.octree.nodes.len() && (#[trigger] ledger.octree.nodes[i]).entry.key == key
}

/// Whether `key` belongs to a node of the octree that is full, and not the root where a
/// node can be too small.
pub open spec fn has_node_out(ledger: Ledger, key: VoxelKey) -> bool {
    exists|i: int|
        0 <= i < ledger.octree.nodes.len() && (#[trigger] ledger.octree.nodes[i]).entry.key == key
            && is_out(ledger, i)
}

/// Whether the node `key` was handed out.
pub open spec fn was_handed(handed: Seq<(VoxelKey, Seq<Seq<u8>>)>, key: VoxelKey) -> bool {
    exists|a: int| 0 <= a < handed.len() && (#[trigger] handed[a]).0 == key
}

/// Whether no node was handed out twice.
pub open spec fn handed_once(handed: Seq<(VoxelKey, Seq<Seq<u8>>)>) -> bool {
    forall|a: int, b: int|
        0 <= a < b < handed.len() ==> (#[trigger] handed[a]).0 != (#[trigger] handed[b]).0
}

/// What the greedy strategy keeps. The nodes that were handed out are exactly the
/// full ones, each once, with as many points as a node takes. They have left the store;
/// the chunk of every other node has the node's points. Where a node can be too small,
/// the root is not handed out.
pub open spec fn greedy_sound(ledger: Ledger) -> bool {
    &&& ledger.octree.wf()
    &&& ledger.octree.max == ledger.max_node_size
    &&& is_shallow(ledger)
    &&& forall|i: int|
        0 <= i < ledger.octree.nodes.len() ==> crate::grouping::records_at(
            ledger.chunks,
            (#[trigger] ledger.octree.nodes[i]).entry.key,
        ).len() == (if is_out(ledger, i) {
            0
        } else {
            ledger.octree.nodes[i].entry.point_count as int
        })
    &&& forall|key: VoxelKey| #[trigger]
        ledger.chunks.contains_key(key) ==> has_node(ledger, key) && ledger.chunks[key].len() > 0
    &&& forall|a: int|
        0 <= a < ledger.handed.len() ==> has_node_out(ledger, (#[trigger] ledger.handed[a]).0)
            && ledger.handed[a].1.len() == ledger.max_node_size
    &&& handed_once(ledger.handed)
    &&& forall|i: int|
        0 <= i < ledger.octree.nodes.len() && is_out(ledger, i) ==> was_handed(
            ledger.handed,
            (#[trigger] ledger.octree.nodes[i]).entry.key,
        )
}

/// A node of the greedy strategy is handed out exactly where it is full, and has left
/// the store there; only the root, where a node can be too small, waits until the file is
/// closed.
pub proof fn lemma_full_nodes_are_handed_out(ledger: Ledger, i: int)
    requires
        greedy_sound(ledger),
        0 <= i < ledger.octree.nodes.len(),
    ensures
        ({
            let node = ledger.octree.nodes[i];
            let waits = i == 0 && ledger.min_node_size != 1;
            &&& was_handed(ledger.handed, node.entry.key) <==> node.full(ledger.max_node_size)
                && !waits
            &&& node.full(ledger.max_node_size) && !waits ==> !ledger.chunks.contains_key(
                node.entry.key,
            )
            &&& node.entry.point_count <= ledger.max_node_size
        }),
{
    let tree = ledger.octree;
    let key = tree.nodes[i].entry.key;
    assert(crate::grouping::records_at(ledger.chunks, tree.nodes[i].entry.key).len() == (
    if is_out(ledger, i) {
        0
    } else {
        tree.nodes[i].entry.point_count as int
    }));
    if was_handed(ledger.handed, key) {
        let a = choose|a: int| 0 <= a < ledger.handed.len() && (#[trigger] ledger.handed[a]).0
            == key;
        assert(has_node_out(ledger, ledger.handed[a].0));
        let j = choose|j: int|
            0 <= j < tree.nodes.len() && (#[trigger] tree.nodes[j]).entry.key == key && is_out(
                ledger,
                j,
            );
        assert(key.level <= 31);
        crate::octree::lemma_key_stands_for_one_node(tree, i, j);
    }
    if is_out(ledger, i) {
        assert(was_handed(ledger.handed, tree.nodes[i].entry.key));
    }
}

proof fn lemma_put_stays_sound(ledger: Ledger, i: int, record: Seq<u8>)
    requires
        greedy_sound(ledger),
        0 <= i < ledger.octree.nodes.len(),
        !ledger.octree.nodes[i].full(ledger.max_node_size),
    ensures
        greedy_sound(ledger.put(i, record)),
{
    let tree = ledger.octree;
    let placed = tree.placed(i);
    let after = ledger.put(i, record);
    let key = tree.nodes[i].entry.key;
    let before = crate::grouping::records_at(ledger.chunks, key);
    crate::octree::lemma_placed_is_wf(tree, i);
    crate::octree::lemma_octants_are_below_the_root(tree, i);
    assert(crate::grouping::records_at(ledger.chunks, tree.nodes[i].entry.key).len()
        == tree.nodes[i].entry.point_count);
    assert(key.level <= 31);
    assert forall|j: int| 0 <= j < placed.nodes.len() implies {
        &&& (#[trigger] placed.nodes[j]).entry.key == tree.nodes[j].entry.key
        &&& j != i ==> placed.nodes[j] == tree.nodes[j] && tree.nodes[j].entry.key != key
    } by {
        if j != i && tree.nodes[j].entry.key == key {
            crate::octree::lemma_key_stands_for_one_node(tree, i, j);
        }
    }
    assert forall|j: int| 0 <= j < placed.nodes.len() implies crate::grouping::records_at(
        after.chunks,
        (#[trigger] placed.nodes[j]).entry.key,
    ).len() == (if is_out(after, j) {
        0
    } else {
        placed.nodes[j].entry.point_count as int
    }) by {
        if j != i {
            assert(crate::grouping::records_at(ledger.chunks, tree.nodes[j].entry.key).len() == (
            if is_out(ledger, j) {
                0
            } else {
                tree.nodes[j].entry.point_count as int
            }));
        }
    }
    assert forall|k: VoxelKey| #[trigger] after.chunks.contains_key(k) implies has_node(after, k)
        && after.chunks[k].len() > 0 by {
        if k == key {
            assert(placed.nodes[i].entry.key == k);
        } else {
            assert(ledger.chunks.contains_key(k));
            let j = choose|j: int| 0 <= j < tree.nodes.len() && (#[trigger] tree.nodes[j]).entry.key
                == k;
            assert(placed.nodes[j].entry.key == k);
        }
    }
    assert forall|a: int| 0 <= a < ledger.handed.len() implies has_node_out(
        after,
        (#[trigger] ledger.handed[a]).0,
    ) && ledger.handed[a].0 != key by {
        let k = ledger.handed[a].0;
        assert(has_node_out(ledger, k));
        let j = choose|j: int|
            0 <= j < tree.nodes.len() && (#[trigger] tree.nodes[j]).entry.key == k && is_out(
                ledger,
                j,
            );
        assert(placed.nodes[j].entry.key == k);
        assert(j != i);
    }
    let out = is_out(after, i);
    assert(after.handed == if out {
        ledger.handed.push((key, before.push(record)))
    } else {
        ledger.handed
    });
    assert forall|a: int| 0 <= a < after.handed.len() implies has_node_out(
        after,
        (#[trigger] after.handed[a]).0,
    ) && after.handed[a].1.len() == after.max_node_size by {
        if a < ledger.handed.len() {
            assert(after.handed[a] == ledger.handed[a]);
        } else {
            assert(placed.nodes[i].entry.key == key);
            assert(after.octree.nodes[i].entry.key == key && is_out(after, i));
        }
    }
    assert forall|a: int, b: int| 0 <= a < b < after.handed.len() implies (
    #[trigger] after.handed[a]).0 != (#[trigger] after.handed[b]).0 by {
        assert(after.handed[a] == ledger.handed[a]);
        if b < ledger.handed.len() {
            assert(after.handed[b] == ledger.handed[b]);
        }
    }
    assert forall|j: int| 0 <= j < placed.nodes.len() && is_out(after, j) implies was_handed(
        after.handed,
        (#[trigger] placed.nodes[j]).entry.key,
    ) by {
        if j == i {
            assert(after.handed[after.handed.len() - 1].0 == key);
        } else {
            assert(is_out(ledger, j));
            assert(was_handed(ledger.handed, tree.nodes[j].entry.key));
            let a = choose|a: int| 0 <= a < ledger.handed.len() && (#[trigger] ledger.handed[a]).0
                == tree.nodes[j].entry.key;
            assert(after.handed[a] == ledger.handed[a]);
        }
    }
    assert(is_shallow(after)) by {
        assert forall|j: int| 0 <= j < after.octree.nodes.len() implies (
        #[trigger] after.octree.nodes[j]).entry.key.level <= 31 by {
            assert(tree.nodes[j].entry.key.level <= 31);
        }
    }
}

proof fn lemma_division_stays_sound(ledger: Ledger, i: int, answers: Answers)
    requires
        greedy_sound(ledger),
        0 <= i < ledger.octree.nodes.len() <= usize::MAX,
        ledger.octree.nodes[i].full(ledger.max_node_size),
        ledger.octree.nodes[i].split is None,
        ledger.octree.nodes[i].entry.key.level < crate::grouping::DEEPEST_ON_GRID,
    ensures
        greedy_sound(ledger.divided(i, answers)),
{
    let tree = ledger.octree;
    let after = ledger.divided(i, answers);
    let nodes = after.octree.nodes;
    let len = tree.nodes.len() as int;
    crate::octree::lemma_divided_is_wf(tree, i, (answers.center)(tree.nodes[i].bounds));
    assert forall|j: int| 0 <= j < nodes.len() implies (#[trigger] nodes[j]).entry.key.level <= 31 by {
        if j < len {
            assert(nodes[j].entry.key == tree.nodes[j].entry.key);
        }
    }
    assert forall|j: int| 0 <= j < nodes.len() implies crate::grouping::records_at(
        ledger.chunks,
        (#[trigger] nodes[j]).entry.key,
    ).len() == (if is_out(after, j) {
        0
    } else {
        nodes[j].entry.point_count as int
    }) by {
        let key = nodes[j].entry.key;
        if j < len {
            assert(key == tree.nodes[j].entry.key);
            assert(is_out(after, j) == is_out(ledger, j));
            assert(crate::grouping::records_at(ledger.chunks, tree.nodes[j].entry.key).len() == (
            if is_out(ledger, j) {
                0
            } else {
                tree.nodes[j].entry.point_count as int
            }));
        } else if ledger.chunks.contains_key(key) {
            assert(has_node(ledger, key));
            let k = choose|k: int| 0 <= k < tree.nodes.len() && (#[trigger] tree.nodes[k]).entry.key
                == key;
            assert(nodes[k].entry.key == key);
            crate::octree::lemma_key_stands_for_one_node(after.octree, j, k);
        }
    }
    assert forall|k: VoxelKey| #[trigger] ledger.chunks.contains_key(k) implies has_node(after, k) by {
        assert(has_node(ledger, k));
        let j = choose|j: int| 0 <= j < tree.nodes.len() && (#[trigger] tree.nodes[j]).entry.key
            == k;
        assert(nodes[j].entry.key == k);
    }
    assert forall|a: int| 0 <= a < ledger.handed.len() implies has_node_out(
        after,
        (#[trigger] ledger.handed[a]).0,
    ) by {
        let k = ledger.handed[a].0;
        assert(has_node_out(ledger, k));
        let j = choose|j: int|
            0 <= j < tree.nodes.len() && (#[trigger] tree.nodes[j]).entry.key == k && is_out(
                ledger,
                j,
            );
        assert(nodes[j].entry.key == k && is_out(after, j));
    }
    assert forall|j: int| 0 <= j < nodes.len() && is_out(after, j) implies was_handed(
        after.handed,
        (#[trigger] nodes[j]).entry.key,
    ) by {
        if j < len {
            assert(is_out(ledger, j));
            assert(was_handed(ledger.handed, tree.nodes[j].entry.key));
        }
    }
}

/// A point that the greedy strategy takes in keeps nodes, chunks and what was handed
/// out in step, as long as no key wraps and the nodes can be counted.
pub proof fn lemma_greedy_strategy_stays_sound(
    ledger: Ledger,
    point: PointInfo,
    record: Seq<u8>,
    answers: Answers,
)
    requires
        greedy_sound(ledger),
        ledger.octree.nodes.len() <= usize::MAX,
        is_shallow(ledger.taken(true, point, record, answers)),
    ensures
        greedy_sound(ledger.taken(true, point, record, answers)),
{
    let after = ledger.taken(true, point, record, answers);
    let offer = ledger.offer(point);
    let counted = Ledger {
        error: crate::ingest::noted(ledger.error, offer, ledger.format),
        points: ledger.points + 1,
        info: crate::writer::with_time(ledger.info, point.gps_time),
        ..ledger
    };
    let p = point.position;
    let tree = ledger.octree;
    if offer.taken() {
        assert(greedy_sound(counted)) by {
            assert forall|i: int| 0 <= i < tree.nodes.len() implies is_out(counted, i) == is_out(
                ledger,
                i,
            ) by {}
            assert forall|key: VoxelKey| has_node(ledger, key) implies has_node(counted, key) by {}
            assert forall|key: VoxelKey| has_node_out(ledger, key) implies has_node_out(counted, key) by {}
        }
        let i = tree.find(0, p);
        crate::octree::lemma_find_contains(tree, 0, p);
        if tree.nodes[i].full(ledger.max_node_size) {
            let divided = counted.divided(i, answers);
            let center = (answers.center)(tree.nodes[i].bounds);
            let next = divided.octree.find(0, p);
            assert(after == divided.put(next, record));
            assert(after.octree.nodes[tree.nodes.len() as int].entry.key.level
                == tree.nodes[i].entry.key.level + 1) by {
                assert(tree.nodes[i].entry.key.level <= 31);
                assert(divided.octree.nodes[tree.nodes.len() as int].entry.key
                    == tree.nodes[i].entry.key.octant_key(0));
                crate::octree::lemma_division_makes_room(tree, center, p);
            }
            crate::octree::lemma_division_makes_room(tree, center, p);
            lemma_division_stays_sound(counted, i, answers);
            lemma_put_stays_sound(divided, next, record);
        } else {
            lemma_put_stays_sound(counted, i, record);
        }
    } else {
        assert forall|i: int| 0 <= i < tree.nodes.len() implies is_out(after, i) == is_out(
            ledger,
            i,
        ) by {}
        assert forall|key: VoxelKey| has_node(ledger, key) implies has_node(after, key) by {}
        assert forall|key: VoxelKey| has_node_out(ledger, key) implies has_node_out(after, key) by {}
    }
}

/// What the voxel strategy keeps. Nothing is handed out before the file is closed.
/// Above the deepest level, a node has one point for each of its cells that was
/// reached; on the deepest level, a node with points has such cells. A node with such
/// cells is the root, or an octant of a node with such cells. No chunk is empty.
pub open spec fn voxel_sound(ledger: Ledger) -> bool {
    let cells = ledger.grid() * ledger.grid() * ledger.grid();
    &&& ledger.handed.len() == 0
    &&& ledger.claimed.finite()
    &&& forall|at: (VoxelKey, u64)| #[trigger]
        ledger.claimed.contains(at) ==> {
            &&& at.1 < cells
            &&& at.0.on_grid()
            &&& at.0.level <= ledger.max_level
            &&& crate::voxel::is_rooted(ledger.claimed, at.0)
        }
    &&& forall|key: VoxelKey| #[trigger]
        ledger.chunks.contains_key(key) ==> ledger.chunks[key].len() > 0
    &&& forall|key: VoxelKey|
        #![trigger crate::grouping::records_at(ledger.chunks, key)]
        #![trigger crate::voxel::representatives(ledger.claimed, key)]
        {
            let points = crate::grouping::records_at(ledger.chunks, key).len();
            let reached = crate::voxel::representatives(ledger.claimed, key);
            &&& key.level < ledger.max_level ==> points == reached
            &&& points > 0 ==> reached > 0
        }
}

/// A point that the voxel strategy takes in keeps nodes and cells in step.
pub proof fn lemma_voxel_strategy_stays_sound(
    ledger: Ledger,
    point: PointInfo,
    record: Seq<u8>,
    answers: Answers,
)
    requires
        voxel_sound(ledger),
        1 <= ledger.grid() <= crate::voxel::MAX_GRID,
        0 <= ledger.max_level <= crate::grouping::DEEPEST_ON_GRID,
    ensures
        voxel_sound(ledger.taken(false, point, record, answers)),
{
    let after = ledger.taken(false, point, record, answers);
    let p = point.position;
    if ledger.offer(point).taken() {
        let root = crate::voxel::VoxelNode { key: VoxelKey::root(), bounds: ledger.cube() };
        let cells = crate::ledger::cells_of(answers, p, ledger.grid());
        let centers = crate::ledger::centers_of(answers);
        let claimed = ledger.claimed;
        let end = crate::voxel::descent(claimed, root, p, cells, centers, ledger.max_level);
        let at = (end.node.key, cells(end.node));
        crate::voxel::lemma_descent_claims_one_cell(
            claimed,
            root,
            p,
            cells,
            centers,
            ledger.max_level,
        );
        crate::voxel::lemma_descent_claims_a_cell(
            claimed,
            root,
            p,
            cells,
            centers,
            ledger.max_level,
        );
        crate::voxel::lemma_descent_ends_below_a_point(
            claimed,
            root,
            p,
            cells,
            centers,
            ledger.max_level,
        );
        vstd::arithmetic::power2::lemma2_to64();
        crate::voxel::lemma_descent_stays_on_grid(
            claimed,
            root,
            p,
            cells,
            centers,
            ledger.max_level,
        );
        let place = (answers.place)(end.node, p);
        crate::voxel::lemma_cell_number_is_bounded(
            place.x as int,
            place.y as int,
            place.z as int,
            ledger.grid(),
        );
        assert forall|other: (VoxelKey, u64)| #[trigger] after.claimed.contains(other) implies
            crate::voxel::is_rooted(after.claimed, other.0) by {
            let key = other.0;
            assert(crate::voxel::is_rooted(claimed, key));
            if key != VoxelKey::root() {
                let (parent, dir) = choose|parent: (VoxelKey, u64), dir: int|
                    claimed.contains(parent) && 0 <= dir < 8 && key
                        == #[trigger] parent.0.octant_key(dir) && key.level == parent.0.level + 1;
                assert(after.claimed.contains(parent));
            }
        }
        assert forall|key: VoxelKey| {
            let points = (#[trigger] crate::grouping::records_at(after.chunks, key)).len();
            let reached = crate::voxel::representatives(after.claimed, key);
            &&& key.level < ledger.max_level ==> points == reached
            &&& points > 0 ==> reached > 0
        } by {
            let before = crate::grouping::records_at(ledger.chunks, key).len();
            crate::voxel::lemma_claim_adds_a_representative(claimed, at, key);
            if key == at.0 && claimed.contains(at) {
                let mine = crate::voxel::claims_of(claimed, key);
                vstd::set_lib::lemma_set_subset_finite(claimed, mine);
                assert(mine.contains(at));
            }
        }
    }
}

/// The voxel strategy keeps one point for each cell: above the deepest level a node
/// has no more points than its grid has cells.
pub proof fn lemma_one_point_per_cell(ledger: Ledger, key: VoxelKey)
    requires
        voxel_sound(ledger),
        key.level < ledger.max_level,
        1 <= ledger.grid() <= crate::voxel::MAX_GRID,
    ensures
        crate::grouping::records_at(ledger.chunks, key).len() == crate::voxel::representatives(
            ledger.claimed,
            key,
        ),
        crate::grouping::records_at(ledger.chunks, key).len() <= ledger.grid() * ledger.grid()
            * ledger.grid(),
{
    crate::voxel::lemma_representatives_are_bounded(ledger.claimed, key, ledger.grid());
}

/// Every node above a node with points has points, by the voxel strategy: a node
/// with points is the root, or an octant of a node with points.
pub proof fn lemma_nodes_above_have_points(ledger: Ledger, key: VoxelKey)
    requires
        voxel_sound(ledger),
        key != VoxelKey::root(),
        key.level <= ledger.max_level,
        crate::grouping::records_at(ledger.chunks, key).len() > 0,
    ensures
        exists|parent: VoxelKey, dir: int|
            0 <= dir < 8 && key == #[trigger] parent.octant_key(dir)
                && crate::grouping::records_at(ledger.chunks, parent).len() > 0,
{
    let mine = crate::voxel::claims_of(ledger.claimed, key);
    vstd::set_lib::lemma_set_subset_finite(ledger.claimed, mine);
    assert(crate::voxel::representatives(ledger.claimed, key) > 0);
    assert(mine.contains(mine.choose()));
    assert(ledger.claimed.contains(mine.choose()));
    let (parent, dir) = choose|parent: (VoxelKey, u64), dir: int|
        ledger.claimed.contains(parent) && 0 <= dir < 8 && key == #[trigger] parent.0.octant_key(
            dir,
        ) && key.level == parent.0.level + 1;
    let theirs = crate::voxel::claims_of(ledger.claimed, parent.0);
    vstd::set_lib::lemma_set_subset_finite(ledger.claimed, theirs);
    assert(theirs.contains(parent));
    assert(crate::voxel::representatives(ledger.claimed, parent.0) > 0);
    assert(crate::grouping::records_at(ledger.chunks, parent.0).len() > 0);
}

/// What is sound by the strategy in use.
pub open spec fn is_sound(ledger: Ledger, greedy: bool) -> bool {
    &&& 1 <= ledger.min_node_size <= ledger.max_node_size
    &&& 1 <= ledger.grid() <= crate::voxel::MAX_GRID
    &&& 0 <= ledger.max_level <= crate::grouping::DEEPEST_ON_GRID
    &&& ledger.chunks.dom().finite()
    &&& ledger.points == held(ledger, lengths())
    &&& if greedy {
        greedy_sound(ledger)
    } else {
        voxel_sound(ledger)
    }
}

/// Whether the octree stays countable and no key wraps while the points are taken
/// in.
pub open spec fn stays_in_range(
    ledger: Ledger,
    greedy: bool,
    points: Seq<(PointInfo, Seq<u8>)>,
    answers: Answers,
) -> bool {
    greedy ==> forall|n: int|
        0 <= n <= points.len() ==> {
            let after = #[trigger] ledger.taken_all(greedy, points.take(n), answers);
            is_shallow(after) && after.octree.nodes.len() <= usize::MAX
        }
}

/// Points that are taken in keep a ledger sound.
pub proof fn lemma_ledger_stays_sound(
    ledger: Ledger,
    greedy: bool,
    points: Seq<(PointInfo, Seq<u8>)>,
    answers: Answers,
)
    requires
        is_sound(ledger, greedy),
        stays_in_range(ledger, greedy, points, answers),
    ensures
        is_sound(ledger.taken_all(greedy, points, answers), greedy),
    decreases points.len(),
{
    if points.len() > 0 {
        let fewer = points.drop_last();
        let (point, record) = points.last();
        let before = ledger.taken_all(greedy, fewer, answers);
        if greedy {
            assert forall|n: int| 0 <= n <= fewer.len() implies {
                let after = #[trigger] ledger.taken_all(greedy, fewer.take(n), answers);
                is_shallow(after) && after.octree.nodes.len() <= usize::MAX
            } by {
                assert(fewer.take(n) =~= points.take(n));
            }
            assert(points.take(points.len() as int) =~= points);
            assert(points.take(points.len() - 1) =~= fewer);
        }
        lemma_ledger_stays_sound(ledger, greedy, fewer, answers);
        lemma_counts_are_additive(Seq::empty());
        lemma_point_adds_its_record(before, greedy, point, record, answers, lengths());
        if greedy {
            lemma_greedy_strategy_stays_sound(before, point, record, answers);
        } else {
            lemma_voxel_strategy_stays_sound(before, point, record, answers);
        }
    }
}

/// A closed file is sound: no node is handed out twice, and where at least the
/// least size of a node was taken in, every node has at least that many points. All
/// nodes together have all points.
pub proof fn lemma_closed_file_is_sound(ledger: Ledger, greedy: bool)
    requires
        is_sound(ledger, greedy),
    ensures
        ({
            let handed = ledger.closed().handed;
            &&& handed_once(handed)
            &&& handed_total(handed, lengths()) == ledger.points
            &&& ledger.points >= ledger.min_node_size ==> forall|a: int|
                0 <= a < handed.len() ==> (#[trigger] handed[a]).1.len() >= ledger.min_node_size
        }),
{
    let least = ledger.min_node_size as int;
    let chunks = ledger.chunks;
    let groups = crate::grouping::grouped(chunks, least);
    let keys = crate::grouping::group_keys(chunks, least);
    let left = ledger.left();
    let handed = ledger.closed().handed;
    lemma_counts_are_additive(Seq::empty());
    lemma_closing_hands_out_all(ledger, lengths());
    crate::grouping::lemma_groups_are_listed(chunks, least);
    crate::grouping::lemma_grouping_keeps_total(chunks, least, lengths());
    assert forall|a: int| 0 <= a < left.len() implies {
        let key = (#[trigger] left[a]).0;
        &&& groups.contains_key(key)
        &&& left[a].1 == groups[key]
        &&& chunks.contains_key(key) || key == VoxelKey::root()
        &&& left[a].1.len() >= least || left[a].1.len() == crate::grouping::total(
            chunks,
            lengths(),
        )
    } by {
        let key = left[a].0;
        assert(keys.contains(keys[keys.len() - 1 - a]));
        crate::grouping::lemma_groups_are_large(chunks, least, key);
        if groups[key].len() < least {
            crate::tally::lemma_sum_remove(groups, key, lengths());
            assert(groups.remove(key).dom() =~= Set::<VoxelKey>::empty());
        }
    }
    assert forall|a: int, b: int| 0 <= a < b < left.len() implies (#[trigger] left[a]).0 != (
    #[trigger] left[b]).0 by {
        assert(keys[keys.len() - 1 - a] != keys[keys.len() - 1 - b]);
    }
    if ledger.handed.len() > 0 {
        let tree = ledger.octree;
        assert(has_node_out(ledger, ledger.handed[0].0));
        let i = choose|i: int|
            0 <= i < tree.nodes.len() && (#[trigger] tree.nodes[i]).entry.key == ledger.handed[0].0
                && is_out(ledger, i);
        crate::octree::lemma_octants_are_below_the_root(tree, i);
        if least > 1 {
            assert(crate::grouping::records_at(chunks, tree.nodes[0].entry.key).len()
                == tree.nodes[0].entry.point_count);
            crate::tally::lemma_sum_remove(chunks, VoxelKey::root(), lengths());
            assert(crate::grouping::total(chunks, lengths()) >= least);
        }
    }
    if least == 1 {
        crate::grouping::lemma_large_chunks_stay(chunks, least);
    }
    assert forall|a: int| 0 <= a < ledger.handed.len() implies !groups.contains_key(
        (#[trigger] ledger.handed[a]).0,
    ) by {
        let tree = ledger.octree;
        let key = ledger.handed[a].0;
        assert(has_node_out(ledger, key));
        let i = choose|i: int|
            0 <= i < tree.nodes.len() && (#[trigger] tree.nodes[i]).entry.key == key && is_out(
                ledger,
                i,
            );
        crate::octree::lemma_octants_are_below_the_root(tree, i);
        assert(crate::grouping::records_at(chunks, tree.nodes[i].entry.key).len() == 0);
        if groups.contains_key(key) {
            crate::grouping::lemma_groups_are_large(chunks, least, key);
        }
    }
    assert forall|a: int, b: int| 0 <= a < b < handed.len() implies (#[trigger] handed[a]).0 != (
    #[trigger] handed[b]).0 by {
        let n = ledger.handed.len();
        if b < n {
            assert(handed[a] == ledger.handed[a] && handed[b] == ledger.handed[b]);
        } else if a >= n {
            assert(handed[a] == left[a - n] && handed[b] == left[b - n]);
        } else {
            assert(handed[a] == ledger.handed[a] && handed[b] == left[b - n]);
        }
    }
    if ledger.points >= least {
        assert forall|a: int| 0 <= a < handed.len() implies (#[trigger] handed[a]).1.len() >= least by {
            let n = ledger.handed.len();
            if a < n {
                assert(handed[a] == ledger.handed[a]);
            } else {
                assert(handed[a] == left[a - n]);
            }
        }
    }
}

/// What was in view is reached: steps that keep the outlook lead to the ledger that
/// was in view when the first of them was taken. So a point that was offered arrives,
/// and a file that is being closed is closed.
pub proof fn lemma_outlook_is_reached(
    states: Seq<(WriterView, SessionView)>,
    record: Seq<u8>,
    answers: Answers,
)
    requires
        states.len() > 0,
        forall|i: int|
            0 <= i < states.len() - 1 ==> crate::ledger::outlook(
                #[trigger] states[i].0,
                states[i].1,
                record,
                answers,
            ) == crate::ledger::outlook(states[i + 1].0, states[i + 1].1, record, answers),
        states.last().1.phase is Idle,
    ensures
        Ledger::of(states.last().0, states.last().1.error) == crate::ledger::outlook(
            states[0].0,
            states[0].1,
            record,
            answers,
        ),
    decreases states.len(),
{
    if states.len() > 1 {
        let later = states.drop_first();
        assert forall|i: int| 0 <= i < later.len() - 1 implies crate::ledger::outlook(
            #[trigger] later[i].0,
            later[i].1,
            record,
            answers,
        ) == crate::ledger::outlook(later[i + 1].0, later[i + 1].1, record, answers) by {
            assert(states[i + 1].0 == later[i].0);
        }
        lemma_outlook_is_reached(later, record, answers);
        assert(later[0].0 == states[1].0);
    }
}

/// Whether `run` has the states of a writer and its session before the first of
/// `points`, between each two, and after the last, where each comes with its record.
pub open spec fn is_run(
    run: Seq<(WriterView, SessionView)>,
    greedy: bool,
    points: Seq<(PointInfo, Seq<u8>)>,
    answers: Answers,
) -> bool {
    &&& run.len() == points.len() + 1
    &&& forall|i: int|
        0 <= i < points.len() ==> Ledger::of(run[i + 1].0, run[i + 1].1.error) == Ledger::of(
            #[trigger] run[i].0,
            run[i].1.error,
        ).taken(greedy, points[i].0, points[i].1, answers)
}

/// A run leads to the ledger with all its points.
pub proof fn lemma_run_takes_all(
    run: Seq<(WriterView, SessionView)>,
    greedy: bool,
    points: Seq<(PointInfo, Seq<u8>)>,
    answers: Answers,
)
    requires
        is_run(run, greedy, points, answers),
    ensures
        Ledger::of(run.last().0, run.last().1.error) == Ledger::of(run[0].0, run[0].1.error).taken_all(
            greedy,
            points,
            answers,
        ),
    decreases points.len(),
{
    if points.len() > 0 {
        let earlier = run.drop_last();
        let fewer = points.drop_last();
        assert forall|i: int| 0 <= i < fewer.len() implies Ledger::of(
            earlier[i + 1].0,
            earlier[i + 1].1.error,
        ) == Ledger::of(#[trigger] earlier[i].0, earlier[i].1.error).taken(
            greedy,
            fewer[i].0,
            fewer[i].1,
            answers,
        ) by {
            assert(run[i].0 == earlier[i].0);
        }
        lemma_run_takes_all(earlier, greedy, fewer, answers);
        assert(run[points.len() - 1].0 == earlier.last().0);
    }
}

/// Neither the memory at hand nor who watches has a part in a file: two runs by the
/// same strategy over the same points, from the same ledger, end with the same
/// ledger, and so do their closed files. A run that is asked whether to go on, and
/// goes on, and one that reports its progress differ from a plain one in no more than
/// that; and so do runs with more memory and with less.
pub proof fn lemma_memory_and_watchers_have_no_part(
    one: Seq<(WriterView, SessionView)>,
    other: Seq<(WriterView, SessionView)>,
    greedy: bool,
    points: Seq<(PointInfo, Seq<u8>)>,
    answers: Answers,
)
    requires
        is_run(one, greedy, points, answers),
        is_run(other, greedy, points, answers),
        Ledger::of(one[0].0, one[0].1.error) == Ledger::of(other[0].0, other[0].1.error),
    ensures
        Ledger::of(one.last().0, one.last().1.error) == Ledger::of(
            other.last().0,
            other.last().1.error,
        ),
        Ledger::of(one.last().0, one.last().1.error).closed() == Ledger::of(
            other.last().0,
            other.last().1.error,
        ).closed(),
        crate::session::write_outcome(one.last().1.error) == crate::session::write_outcome(
            other.last().1.error,
        ),
{
    lemma_run_takes_all(one, greedy, points, answers);
    lemma_run_takes_all(other, greedy, points, answers);
    assert(Ledger::of(one.last().0, one.last().1.error).error == one.last().1.error);
    assert(Ledger::of(other.last().0, other.last().1.error).error == other.last().1.error);
}

/// New writers for the same file have the same ledger, whatever the memory at hand.
/// There is nothing in it, and it is sound.
pub proof fn lemma_new_writers_agree(
    min_node_size: i32,
    max_node_size: i32,
    place: Placement,
    budget: nat,
    other: nat,
    greedy: bool,
)
    requires
        1 <= min_node_size < max_node_size,
    ensures
        ({
            let writer = WriterView::fresh(min_node_size, max_node_size, place, budget);
            let ledger = Ledger::of(writer, None);
            &&& ledger == Ledger::of(
                WriterView::fresh(min_node_size, max_node_size, place, other),
                None,
            )
            &&& ledger.chunks == Map::<VoxelKey, Seq<Seq<u8>>>::empty()
            &&& ledger.handed == Seq::<(VoxelKey, Seq<Seq<u8>>)>::empty()
            &&& ledger.points == 0
            &&& is_entered(writer.entries, writer.handed)
            &&& is_sound(ledger, greedy)
        }),
{
    let ledger = Ledger::of(
        WriterView::fresh(min_node_size, max_node_size, place, budget),
        None,
    );
    assert(ledger.chunks =~= Map::<VoxelKey, Seq<Seq<u8>>>::empty());
    assert(ledger.chunks.dom() =~= Set::<VoxelKey>::empty());
    assert(crate::grouping::total(ledger.chunks, lengths()) == 0);
    crate::voxel::lemma_grid_is_bounded(max_node_size);
    vstd::arithmetic::power2::lemma2_to64();
    assert forall|key: VoxelKey| #[trigger]
        crate::voxel::representatives(ledger.claimed, key) == 0 by {
        assert(crate::voxel::claims_of(ledger.claimed, key) =~= Set::<(VoxelKey, u64)>::empty());
    }
}

/// Whether the entries are those of what was handed out: each has the key and the
/// number of points of its node.
pub open spec fn is_entered(
    entries: Seq<Entry>,
    handed: Seq<(VoxelKey, Seq<Seq<u8>>)>,
) -> bool {
    &&& entries.len() == handed.len()
    &&& forall|i: int|
        0 <= i < entries.len() ==> (#[trigger] entries[i]).key == handed[i].0
            && entries[i].point_count == handed[i].1.len()
}

/// The points of all entries.
pub open spec fn entered_points(entries: Seq<Entry>) -> int
    decreases entries.len(),
{
    if entries.len() == 0 {
        0
    } else {
        entered_points(entries.drop_last()) + entries.last().point_count
    }
}

proof fn lemma_entries_have_the_points_handed_out(
    entries: Seq<Entry>,
    handed: Seq<(VoxelKey, Seq<Seq<u8>>)>,
)
    requires
        is_entered(entries, handed),
    ensures
        entered_points(entries) == handed_total(handed, lengths()),
    decreases entries.len(),
{
    if entries.len() > 0 {
        let fewer = entries.drop_last();
        assert forall|i: int| 0 <= i < fewer.len() implies (#[trigger] fewer[i]).key
            == handed.drop_last()[i].0 && fewer[i].point_count == handed.drop_last()[i].1.len() by {
            assert(fewer[i] == entries[i]);
        }
        lemma_entries_have_the_points_handed_out(fewer, handed.drop_last());
        assert(entries[entries.len() - 1].point_count == handed[entries.len() - 1].1.len());
    }
}

/// The hierarchy of a closed file: no two entries have the same key, the entries
/// together have all points that were taken in, and where there are at least as many
/// as the least size of a node, no entry has fewer than that.
pub proof fn lemma_hierarchy_of_closed_file(
    ledger: Ledger,
    greedy: bool,
    writer: WriterView,
    a: int,
    b: int,
)
    requires
        is_sound(ledger, greedy),
        is_entered(writer.entries, writer.handed),
        writer.handed == ledger.closed().handed,
        0 <= a < writer.entries.len(),
        0 <= b < writer.entries.len(),
    ensures
        a != b ==> writer.entries[a].key != writer.entries[b].key,
        entered_points(writer.entries) == ledger.points,
        ledger.points >= ledger.min_node_size ==> writer.entries[a].point_count
            >= ledger.min_node_size,
{
    lemma_closed_file_is_sound(ledger, greedy);
    lemma_entries_have_the_points_handed_out(writer.entries, writer.handed);
    assert(writer.entries[a].key == writer.handed[a].0);
    assert(writer.entries[b].key == writer.handed[b].0);
}

/// No chunk and no record becomes empty where the records that come are not.
pub proof fn lemma_no_record_becomes_empty(
    ledger: Ledger,
    greedy: bool,
    point: PointInfo,
    record: Seq<u8>,
    answers: Answers,
)
    requires
        crate::ledger::has_no_empty_record(ledger),
        record.len() > 0,
    ensures
        crate::ledger::has_no_empty_record(ledger.taken(greedy, point, record, answers)),
{
    let after = ledger.taken(greedy, point, record, answers);
    assert forall|key: VoxelKey| #[trigger] after.chunks.contains_key(key) implies {
        &&& after.chunks[key].len() > 0
        &&& forall|i: int|
            0 <= i < after.chunks[key].len() ==> (#[trigger] after.chunks[key][i]).len() > 0
    } by {
        let before = crate::grouping::records_at(ledger.chunks, key);
        assert(after.chunks[key] == before || after.chunks[key] == before.push(record));
        if ledger.chunks.contains_key(key) {
            assert forall|i: int| 0 <= i < after.chunks[key].len() implies (
            #[trigger] after.chunks[key][i]).len() > 0 by {
                if i < before.len() {
                    assert(ledger.chunks[key][i].len() > 0);
                }
            }
        }
    }
}

/// No chunk and no record is empty, once points have been taken in whose records are
/// not.
pub proof fn lemma_no_record_is_empty(
    ledger: Ledger,
    greedy: bool,
    points: Seq<(PointInfo, Seq<u8>)>,
    answers: Answers,
)
    requires
        crate::ledger::has_no_empty_record(ledger),
        forall|i: int| 0 <= i < points.len() ==> (#[trigger] points[i]).1.len() > 0,
    ensures
        crate::ledger::has_no_empty_record(ledger.taken_all(greedy, points, answers)),
    decreases points.len(),
{
    if points.len() > 0 {
        let fewer = points.drop_last();
        assert(points[points.len() - 1].1.len() > 0);
        assert forall|i: int| 0 <= i < fewer.len() implies (#[trigger] fewer[i]).1.len() > 0 by {
            assert(fewer[i] == points[i]);
        }
        lemma_no_record_is_empty(ledger, greedy, fewer, answers);
        lemma_no_record_becomes_empty(
            ledger.taken_all(greedy, fewer, answers),
            greedy,
            points.last().0,
            points.last().1,
            answers,
        );
    }
}

/// The nodes that were handed out.
pub open spec fn handed_keys(handed: Seq<(VoxelKey, Seq<Seq<u8>>)>) -> Set<VoxelKey> {
    Set::new(|key: VoxelKey| was_handed(handed, key))
}

proof fn lemma_root_is_claimed(claimed: Set<(VoxelKey, u64)>, at: (VoxelKey, u64))
    requires
        forall|other: (VoxelKey, u64)| #[trigger]
            claimed.contains(other) ==> other.0.on_grid() && crate::voxel::is_rooted(
                claimed,
                other.0,
            ),
        claimed.contains(at),
    ensures
        exists|cell: u64| claimed.contains((VoxelKey::root(), cell)),
    decreases at.0.level,
{
    if at.0 == VoxelKey::root() {
        assert(claimed.contains((VoxelKey::root(), at.1)));
    } else {
        let (parent, dir) = choose|parent: (VoxelKey, u64), dir: int|
            claimed.contains(parent) && 0 <= dir < 8 && at.0 == #[trigger] parent.0.octant_key(dir)
                && at.0.level == parent.0.level + 1;
        lemma_root_is_claimed(claimed, parent);
    }
}

proof fn lemma_claimed_node_has_points(ledger: Ledger, at: (VoxelKey, u64))
    requires
        voxel_sound(ledger),
        ledger.claimed.contains(at),
        at.0.level < ledger.max_level,
    ensures
        ledger.chunks.contains_key(at.0),
{
    let mine = crate::voxel::claims_of(ledger.claimed, at.0);
    vstd::set_lib::lemma_set_subset_finite(ledger.claimed, mine);
    assert(mine.contains(at));
    assert(crate::grouping::records_at(ledger.chunks, at.0).len() > 0);
}

proof fn lemma_voxel_chunks_are_linked(ledger: Ledger)
    requires
        is_sound(ledger, false),
        ledger.points > 0,
    ensures
        crate::grouping::is_linked(ledger.chunks, handed_keys(ledger.handed)),
{
    let chunks = ledger.chunks;
    assert forall|key: VoxelKey| #[trigger] chunks.contains_key(key) implies {
        &&& key.on_grid()
        &&& key.level <= crate::grouping::DEEPEST_ON_GRID
        &&& key == VoxelKey::root() || chunks.contains_key(key.parent())
        &&& chunks.contains_key(VoxelKey::root())
    } by {
        let mine = crate::voxel::claims_of(ledger.claimed, key);
        vstd::set_lib::lemma_set_subset_finite(ledger.claimed, mine);
        assert(crate::grouping::records_at(chunks, key).len() > 0);
        assert(crate::voxel::representatives(ledger.claimed, key) > 0);
        let at = mine.choose();
        assert(mine.contains(at));
        assert(ledger.claimed.contains(at));
        if key != VoxelKey::root() {
            let (parent, dir) = choose|parent: (VoxelKey, u64), dir: int|
                ledger.claimed.contains(parent) && 0 <= dir < 8 && key
                    == #[trigger] parent.0.octant_key(dir) && key.level == parent.0.level + 1;
            crate::key::lemma_parent_of_octant(parent.0, dir);
            lemma_claimed_node_has_points(ledger, parent);
            lemma_root_is_claimed(ledger.claimed, at);
            let cell = choose|cell: u64| ledger.claimed.contains((VoxelKey::root(), cell));
            lemma_claimed_node_has_points(ledger, (VoxelKey::root(), cell));
        }
    }
    assert(chunks.contains_key(VoxelKey::root())) by {
        if chunks.dom().len() == 0 {
            assert(chunks.dom() =~= Set::<VoxelKey>::empty());
            assert(handed_total(ledger.handed, lengths()) == 0);
            assert(false);
        }
        assert(chunks.contains_key(chunks.dom().choose()));
    }
}

proof fn lemma_node_has_parent_handed(ledger: Ledger, i: int)
    requires
        greedy_sound(ledger),
        1 <= ledger.max_node_size,
        1 <= i < ledger.octree.nodes.len(),
    ensures
        ({
            let parent = ledger.octree.nodes[i].entry.key.parent();
            parent == VoxelKey::root() || was_handed(ledger.handed, parent)
        }),
        ledger.chunks.contains_key(VoxelKey::root()) || was_handed(
            ledger.handed,
            VoxelKey::root(),
        ),
{
    let tree = ledger.octree;
    assert(tree.has_parent(i));
    let (q, dir) = choose|q: int, dir: int| #[trigger] tree.is_octant(q, dir, i);
    assert(tree.split_ok(q));
    assert(tree.octant_node(q, dir).entry.key == tree.nodes[q].entry.key.octant_key(dir));
    assert(tree.nodes[i].entry.key.level <= 31);
    assert(tree.nodes[q].entry.key.on_grid());
    crate::key::lemma_parent_of_octant(tree.nodes[q].entry.key, dir);
    crate::octree::lemma_octants_are_below_the_root(tree, i);
    if q != 0 {
        assert(is_out(ledger, q));
    }
    if is_out(ledger, 0) {
        assert(was_handed(ledger.handed, tree.nodes[0].entry.key));
    }
    assert(!is_out(ledger, 0) ==> crate::grouping::records_at(ledger.chunks, tree.nodes[0].entry.key).len()
        == tree.nodes[0].entry.point_count);
}

proof fn lemma_greedy_chunks_are_linked(ledger: Ledger)
    requires
        is_sound(ledger, true),
        ledger.points > 0,
    ensures
        crate::grouping::is_linked(ledger.chunks, handed_keys(ledger.handed)),
{
    let chunks = ledger.chunks;
    let tree = ledger.octree;
    let out = handed_keys(ledger.handed);
    assert forall|key: VoxelKey| #[trigger] chunks.contains_key(key) implies {
        &&& key.on_grid()
        &&& key.level <= crate::grouping::DEEPEST_ON_GRID
        &&& key == VoxelKey::root() || chunks.contains_key(key.parent()) || out.contains(
            key.parent(),
        )
        &&& chunks.contains_key(VoxelKey::root()) || out.contains(VoxelKey::root())
    } by {
        assert(has_node(ledger, key));
        let i = choose|i: int| 0 <= i < tree.nodes.len() && (#[trigger] tree.nodes[i]).entry.key
            == key;
        if i > 0 {
            lemma_node_has_parent_handed(ledger, i);
        }
    }
    assert(chunks.contains_key(VoxelKey::root()) || out.contains(VoxelKey::root())) by {
        if ledger.handed.len() > 0 {
            assert(has_node_out(ledger, ledger.handed[0].0));
            let i = choose|i: int|
                0 <= i < tree.nodes.len() && (#[trigger] tree.nodes[i]).entry.key
                    == ledger.handed[0].0 && is_out(ledger, i);
            if i > 0 {
                lemma_node_has_parent_handed(ledger, i);
            } else {
                assert(was_handed(ledger.handed, tree.nodes[0].entry.key));
            }
        } else {
            if chunks.dom().len() == 0 {
                assert(chunks.dom() =~= Set::<VoxelKey>::empty());
                assert(handed_total(ledger.handed, lengths()) == 0);
                assert(false);
            }
            assert(chunks.contains_key(chunks.dom().choose()));
        }
    }
}

/// Every node of a closed file can be reached from the root: a node that is handed
/// out is the root, or its parent is handed out too.
pub proof fn lemma_closed_file_is_linked(ledger: Ledger, greedy: bool, a: int)
    requires
        is_sound(ledger, greedy),
        ledger.points > 0,
        0 <= a < ledger.closed().handed.len(),
    ensures
        ({
            let handed = ledger.closed().handed;
            handed[a].0 == VoxelKey::root() || was_handed(handed, handed[a].0.parent())
        }),
        was_handed(ledger.closed().handed, VoxelKey::root()),
{
    let least = ledger.min_node_size as int;
    let chunks = ledger.chunks;
    let groups = crate::grouping::grouped(chunks, least);
    let keys = crate::grouping::group_keys(chunks, least);
    let out = handed_keys(ledger.handed);
    let left = ledger.left();
    let handed = ledger.closed().handed;
    let n = ledger.handed.len();
    let key = handed[a].0;
    let root = VoxelKey::root();
    assert({
        &&& groups.contains_key(root) || out.contains(root)
        &&& groups.contains_key(key) ==> key == root || groups.contains_key(key.parent())
            || out.contains(key.parent())
    }) by {
        if greedy {
            lemma_greedy_chunks_are_linked(ledger);
        } else {
            lemma_voxel_chunks_are_linked(ledger);
        }
        crate::grouping::lemma_groups_stay_linked(chunks, least, out);
    }
    crate::grouping::lemma_groups_are_listed(chunks, least);
    assert forall|key: VoxelKey| groups.contains_key(key) || was_handed(
        ledger.handed,
        key,
    ) implies #[trigger] was_handed(handed, key) by {
        if groups.contains_key(key) {
            assert(keys.contains(key));
            let i = choose|i: int| 0 <= i < keys.len() && keys[i] == key;
            let b = n + keys.len() - 1 - i;
            assert(handed[b] == left[b - n]);
            assert(handed[b].0 == key);
        } else {
            let b = choose|b: int| 0 <= b < n && (#[trigger] ledger.handed[b]).0 == key;
            assert(handed[b] == ledger.handed[b]);
        }
    }
    assert(was_handed(handed, VoxelKey::root()));
    if a < n {
        let tree = ledger.octree;
        assert(handed[a] == ledger.handed[a]);
        assert(has_node_out(ledger, key));
        let i = choose|i: int|
            0 <= i < tree.nodes.len() && (#[trigger] tree.nodes[i]).entry.key == key && is_out(
                ledger,
                i,
            );
        if i > 0 {
            lemma_node_has_parent_handed(ledger, i);
            assert(was_handed(handed, key.parent()));
        }
    } else {
        assert(handed[a] == left[a - n]);
        assert(keys.contains(keys[keys.len() - 1 - (a - n)]));
        assert(groups.contains_key(key));
        if key != VoxelKey::root() {
            assert(groups.contains_key(key.parent()) || was_handed(ledger.handed, key.parent()));
            assert(was_handed(handed, key.parent()));
        }
    }
}

proof fn lemma_cube_stays(
    ledger: Ledger,
    greedy: bool,
    point: PointInfo,
    record: Seq<u8>,
    answers: Answers,
)
    requires
        ledger.octree.nodes.len() > 0,
    ensures
        ({
            let after = ledger.taken(greedy, point, record, answers);
            &&& after.cube() == ledger.cube()
            &&& after.format == ledger.format
            &&& after.min_node_size == ledger.min_node_size
            &&& after.octree.nodes.len() > 0
        }),
{
    let tree = ledger.octree;
    let p = point.position;
    if ledger.offer(point).taken() && greedy {
        let i = tree.find(0, p);
        crate::octree::lemma_find_is_a_node(tree, 0, p);
        if tree.nodes[i].full(ledger.max_node_size) {
            let divided = tree.divided(i, (answers.center)(tree.nodes[i].bounds));
            crate::octree::lemma_find_is_a_node(divided, 0, p);
        }
    }
}

/// Which points are taken in does not depend on those before: whether a point matches
/// the format and is inside the cube is the same after any points.
pub proof fn lemma_offers_stay_the_same(
    ledger: Ledger,
    greedy: bool,
    points: Seq<(PointInfo, Seq<u8>)>,
    answers: Answers,
    point: PointInfo,
)
    requires
        ledger.octree.nodes.len() > 0,
    ensures
        ledger.taken_all(greedy, points, answers).offer(point) == ledger.offer(point),
        ledger.taken_all(greedy, points, answers).min_node_size == ledger.min_node_size,
        ledger.taken_all(greedy, points, answers).octree.nodes.len() > 0,
    decreases points.len(),
{
    if points.len() > 0 {
        let fewer = points.drop_last();
        lemma_offers_stay_the_same(ledger, greedy, fewer, answers, point);
        lemma_cube_stays(
            ledger.taken_all(greedy, fewer, answers),
            greedy,
            points.last().0,
            points.last().1,
            answers,
        );
    }
}

/// The records of the points that match the format and are inside the cube.
pub open spec fn valid_records(ledger: Ledger, points: Seq<(PointInfo, Seq<u8>)>) -> Seq<Seq<u8>>
    decreases points.len(),
{
    if points.len() == 0 {
        Seq::empty()
    } else {
        let before = valid_records(ledger, points.drop_last());
        if ledger.offer(points.last().0).taken() {
            before.push(points.last().1)
        } else {
            before
        }
    }
}

/// The points that are taken in are exactly the valid ones.
pub proof fn lemma_valid_points_are_taken_in(
    ledger: Ledger,
    greedy: bool,
    points: Seq<(PointInfo, Seq<u8>)>,
    answers: Answers,
)
    requires
        ledger.octree.nodes.len() > 0,
    ensures
        accepted(ledger, greedy, points, answers) == valid_records(ledger, points),
    decreases points.len(),
{
    if points.len() > 0 {
        let fewer = points.drop_last();
        lemma_valid_points_are_taken_in(ledger, greedy, fewer, answers);
        lemma_offers_stay_the_same(ledger, greedy, fewer, answers, points.last().0);
    }
}

/// Whether `end` is a writer whose file is written: from a new writer on, `run` took
/// the points in, the file was closed, and every node was entered in the hierarchy with
/// the points that it has.
pub open spec fn is_written(
    min_node_size: i32,
    max_node_size: i32,
    place: Placement,
    budget: nat,
    greedy: bool,
    points: Seq<(PointInfo, Seq<u8>)>,
    answers: Answers,
    run: Seq<(WriterView, SessionView)>,
    end: WriterView,
) -> bool {
    &&& 1 <= min_node_size < max_node_size
    &&& is_run(run, greedy, points, answers)
    &&& run[0].0 == WriterView::fresh(min_node_size, max_node_size, place, budget)
    &&& run[0].1.error is None
    &&& Ledger::of(end, run.last().1.error) == Ledger::of(
        run.last().0,
        run.last().1.error,
    ).closed()
    &&& is_entered(end.entries, end.handed)
}

/// A file that is written has exactly the records of the valid points, each as often as
/// it came, and the entries of its hierarchy together have all points.
pub proof fn lemma_written_file_has_the_valid_points(
    min_node_size: i32,
    max_node_size: i32,
    place: Placement,
    budget: nat,
    greedy: bool,
    points: Seq<(PointInfo, Seq<u8>)>,
    answers: Answers,
    run: Seq<(WriterView, SessionView)>,
    end: WriterView,
)
    requires
        is_written(
            min_node_size,
            max_node_size,
            place,
            budget,
            greedy,
            points,
            answers,
            run,
            end,
        ),
    ensures
        ({
            let valid = valid_records(Ledger::of(run[0].0, None), points);
            &&& handed_records(end.handed).to_multiset() == valid.to_multiset()
            &&& end.points == valid.len()
            &&& entered_points(end.entries) == valid.len()
        }),
{
    let first = Ledger::of(run[0].0, None);
    let last = Ledger::of(run.last().0, run.last().1.error);
    lemma_new_writers_agree(min_node_size, max_node_size, place, budget, budget, greedy);
    lemma_run_takes_all(run, greedy, points, answers);
    lemma_valid_points_are_taken_in(first, greedy, points, answers);
    lemma_closed_file_has_what_was_taken_in(first, greedy, points, answers);
    assert(Ledger::of(end, run.last().1.error).handed == end.handed);
    assert(Ledger::of(end, run.last().1.error).points == end.points);
    lemma_entries_have_the_points_handed_out(end.entries, end.handed);
}

/// The hierarchy of a file that is written, as long as no key wraps: no two entries have
/// the same key. Where there are at least as many points as the least size of a node, no
/// entry has fewer than that. And every entry can be reached from the root.
pub proof fn lemma_written_file_has_a_sound_hierarchy(
    min_node_size: i32,
    max_node_size: i32,
    place: Placement,
    budget: nat,
    greedy: bool,
    points: Seq<(PointInfo, Seq<u8>)>,
    answers: Answers,
    run: Seq<(WriterView, SessionView)>,
    end: WriterView,
    a: int,
    b: int,
)
    requires
        is_written(
            min_node_size,
            max_node_size,
            place,
            budget,
            greedy,
            points,
            answers,
            run,
            end,
        ),
        stays_in_range(Ledger::of(run[0].0, None), greedy, points, answers),
        0 <= a < end.entries.len(),
        0 <= b < end.entries.len(),
    ensures
        ({
            let valid = valid_records(Ledger::of(run[0].0, None), points);
            let entries = end.entries;
            &&& a != b ==> entries[a].key != entries[b].key
            &&& valid.len() >= min_node_size ==> entries[a].point_count >= min_node_size
            &&& valid.len() > 0 ==> entries[a].key == VoxelKey::root() || has_entry(
                entries,
                entries[a].key.parent(),
            )
        }),
{
    let first = Ledger::of(run[0].0, None);
    let last = Ledger::of(run.last().0, run.last().1.error);
    lemma_written_file_has_the_valid_points(
        min_node_size,
        max_node_size,
        place,
        budget,
        greedy,
        points,
        answers,
        run,
        end,
    );
    lemma_new_writers_agree(min_node_size, max_node_size, place, budget, budget, greedy);
    lemma_run_takes_all(run, greedy, points, answers);
    lemma_ledger_stays_sound(first, greedy, points, answers);
    assert(Ledger::of(end, run.last().1.error).handed == end.handed);
    assert(Ledger::of(end, run.last().1.error).points == end.points);
    lemma_hierarchy_of_closed_file(last, greedy, end, a, b);
    if points.len() > 0 {
        lemma_offers_stay_the_same(first, greedy, points, answers, points[0].0);
    }
    if last.points > 0 {
        lemma_closed_file_is_linked(last, greedy, a);
        if end.handed[a].0 != VoxelKey::root() {
            let c = choose|c: int|
                0 <= c < end.handed.len() && (#[trigger] end.handed[c]).0
                    == end.handed[a].0.parent();
            assert(end.entries[c].key == end.entries[a].key.parent());
        }
    }
}

/// Whether there is an entry of `key`.
pub open spec fn has_entry(entries: Seq<Entry>, key: VoxelKey) -> bool {
    exists|c: int| 0 <= c < entries.len() && (#[trigger] entries[c]).key == key
}

/// With the least size 1, nothing is put together: every node that is left when the file
/// is closed is handed out once, with the records of its chunk, and nothing else is.
pub proof fn lemma_each_chunk_is_handed_out(ledger: Ledger, key: VoxelKey)
    requires
        ledger.chunks.dom().finite(),
        crate::ledger::has_no_empty_record(ledger),
        ledger.min_node_size <= 1,
    ensures
        ledger.left().len() == ledger.chunks.dom().len(),
        handed_once(ledger.left()),
        was_handed(ledger.left(), key) <==> ledger.chunks.contains_key(key),
        forall|a: int|
            0 <= a < ledger.left().len() ==> (#[trigger] ledger.left()[a]).1
                == ledger.chunks[ledger.left()[a].0],
{
    let least = ledger.min_node_size as int;
    let chunks = ledger.chunks;
    let keys = crate::grouping::group_keys(chunks, least);
    let left = ledger.left();
    crate::grouping::lemma_large_chunks_stay(chunks, least);
    crate::grouping::lemma_groups_are_listed(chunks, least);
    assert(keys.to_set() =~= chunks.dom());
    keys.unique_seq_to_set();
    assert forall|a: int, b: int| 0 <= a < b < left.len() implies (#[trigger] left[a]).0 != (
    #[trigger] left[b]).0 by {
        assert(keys[keys.len() - 1 - a] != keys[keys.len() - 1 - b]);
    }
    if chunks.contains_key(key) {
        assert(keys.contains(key));
        let i = choose|i: int| 0 <= i < keys.len() && keys[i] == key;
        assert(left[keys.len() - 1 - i].0 == key);
    }
    if was_handed(left, key) {
        let a = choose|a: int| 0 <= a < left.len() && (#[trigger] left[a]).0 == key;
        assert(keys.contains(keys[keys.len() - 1 - a]));
    }
}

/// The times of the points that match the format and are inside the cube.
pub open spec fn valid_times(ledger: Ledger, points: Seq<(PointInfo, Seq<u8>)>) -> Seq<Option<u64>>
    decreases points.len(),
{
    if points.len() == 0 {
        Seq::empty()
    } else {
        let before = valid_times(ledger, points.drop_last());
        if ledger.offer(points.last().0).taken() {
            before.push(points.last().0.gps_time)
        } else {
            before
        }
    }
}

/// The offers of points, one after another.
pub open spec fn offers_of(ledger: Ledger, points: Seq<(PointInfo, Seq<u8>)>) -> Seq<
    crate::ingest::Offer,
> {
    Seq::new(points.len(), |i: int| ledger.offer(points[i].0))
}

/// The description has the times of exactly the valid points, and the error is what is
/// wrong with the others.
pub proof fn lemma_times_and_errors_are_of_the_points(
    ledger: Ledger,
    greedy: bool,
    points: Seq<(PointInfo, Seq<u8>)>,
    answers: Answers,
)
    requires
        ledger.octree.nodes.len() > 0,
        ledger.error is None,
    ensures
        ledger.taken_all(greedy, points, answers).info == crate::writer::with_times(
            ledger.info,
            valid_times(ledger, points),
        ),
        ledger.taken_all(greedy, points, answers).error == crate::ingest::noted_all(
            offers_of(ledger, points),
            ledger.format,
        ),
        ledger.taken_all(greedy, points, answers).format == ledger.format,
    decreases points.len(),
{
    if points.len() > 0 {
        let fewer = points.drop_last();
        let point = points.last().0;
        let before = ledger.taken_all(greedy, fewer, answers);
        lemma_times_and_errors_are_of_the_points(ledger, greedy, fewer, answers);
        lemma_offers_stay_the_same(ledger, greedy, fewer, answers, point);
        lemma_cube_stays(before, greedy, point, points.last().1, answers);
        let offers = offers_of(ledger, points);
        assert(offers.drop_last() =~= offers_of(ledger, fewer));
        assert(offers.last() == ledger.offer(point));
        let times = valid_times(ledger, fewer);
        assert(times.push(point.gps_time).drop_last() =~= times);
    } else {
        assert(valid_times(ledger, points) =~= Seq::<Option<u64>>::empty());
    }
}

/// A write ends in an error exactly where a point did not match or was outside: about
/// attributes where one did not match, else about bounds.
pub proof fn lemma_outcome_is_of_the_points(
    ledger: Ledger,
    greedy: bool,
    points: Seq<(PointInfo, Seq<u8>)>,
    answers: Answers,
)
    requires
        ledger.octree.nodes.len() > 0,
        ledger.error is None,
    ensures
        ({
            let outcome = crate::session::write_outcome(
                ledger.taken_all(greedy, points, answers).error,
            );
            &&& outcome is Ok <==> forall|i: int|
                0 <= i < points.len() ==> ledger.offer((#[trigger] points[i]).0).matches
                    && ledger.offer(points[i].0).inside
            &&& (exists|i: int|
                0 <= i < points.len() && !ledger.offer((#[trigger] points[i]).0).matches)
                ==> outcome is Err && outcome->Err_0 == crate::error::CopcError::InvalidPoint(
                crate::error::PointAddError::PointAttributesDoNotMatch(ledger.format),
            )
        }),
{
    let offers = offers_of(ledger, points);
    lemma_times_and_errors_are_of_the_points(ledger, greedy, points, answers);
    crate::ingest::lemma_attributes_take_precedence(offers, ledger.format);
    crate::session::lemma_outcome_tells_what_was_wrong(
        ledger.taken_all(greedy, points, answers).error,
    );
    assert forall|i: int| 0 <= i < points.len() implies #[trigger] offers[i] == ledger.offer(
        points[i].0,
    ) by {}
    assert forall|i: int| 0 <= i < points.len() && !ledger.offer(
        (#[trigger] points[i]).0,
    ).matches implies !offers[i].matches by {}
    assert forall|i: int| 0 <= i < points.len() && !ledger.offer(
        (#[trigger] points[i]).0,
    ).inside implies !offers[i].inside by {}
}

} // verus!
