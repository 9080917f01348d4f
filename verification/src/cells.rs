//! Where the boxes of nodes are: the key of a node says which box it has, and a point
//! goes to no node but one whose box has it.

use crate::geometry::{Bounds, Position};
use crate::key::VoxelKey;
use crate::ledger::{Answers, Ledger};
use crate::octree::OctreeView;
use crate::voxel::VoxelNode;
use crate::writer::PointInfo;
use vstd::prelude::*;

verus! {

/// One half of the range from `low` to `high` that is cut at `center`: the upper half
/// where `side` is 1, else the lower half.
pub open spec fn half_range(low: u64, high: u64, center: u64, side: int) -> (u64, u64) {
    if side == 1 {
        (center, high)
    } else {
        (low, center)
    }
}

/// The box of the cell at `x`, `y` and `z` of the grid of a level, where `cube` is the
/// only cell of the topmost level, and every cell is cut in eight at its center. This is
/// what whoever reads a file takes the box of a node to be.
pub open spec fn cell_box(
    cube: Bounds,
    center: spec_fn(Bounds) -> Position,
    level: nat,
    x: int,
    y: int,
    z: int,
) -> Bounds
    decreases level,
{
    if level == 0 {
        cube
    } else {
        let whole = cell_box(cube, center, (level - 1) as nat, x / 2, y / 2, z / 2);
        let cut = center(whole);
        let along_x = half_range(whole.min.x, whole.max.x, cut.x, x % 2);
        let along_y = half_range(whole.min.y, whole.max.y, cut.y, y % 2);
        let along_z = half_range(whole.min.z, whole.max.z, cut.z, z % 2);
        Bounds {
            min: Position { x: along_x.0, y: along_y.0, z: along_z.0 },
            max: Position { x: along_x.1, y: along_y.1, z: along_z.1 },
        }
    }
}

/// The box of the node `key`.
pub open spec fn box_of(cube: Bounds, center: spec_fn(Bounds) -> Position, key: VoxelKey) -> Bounds {
    cell_box(cube, center, key.level as nat, key.x as int, key.y as int, key.z as int)
}

/// An octant has the box of its key, where the node has the box of its key and is cut
/// at its center.
pub proof fn lemma_octant_has_its_box(
    cube: Bounds,
    center: spec_fn(Bounds) -> Position,
    key: VoxelKey,
    bounds: Bounds,
    dir: int,
)
    requires
        key.on_grid(),
        key.level <= 30,
        0 <= dir < 8,
        bounds == box_of(cube, center, key),
    ensures
        crate::geometry::octant(bounds, center(bounds), dir) == box_of(
            cube,
            center,
            key.octant_key(dir),
        ),
{
    let x = dir % 2;
    let y = dir / 2 % 2;
    let z = dir / 4;
    crate::key::lemma_octant_key_says_where(key, x, y, z);
    crate::geometry::lemma_octant_is_part_of_box(bounds, center(bounds), x, y, z);
    let octant = key.octant_key(dir);
    assert(octant.x as int / 2 == key.x && octant.x as int % 2 == x);
    assert(octant.y as int / 2 == key.y && octant.y as int % 2 == y);
    assert(octant.z as int / 2 == key.z && octant.z as int % 2 == z);
}

/// A point that the voxel strategy places ends up in a node that has the box of its
/// key, and that box has the point.
pub proof fn lemma_voxel_point_is_in_its_box(
    cube: Bounds,
    answers: Answers,
    claimed: Set<(VoxelKey, u64)>,
    node: VoxelNode,
    p: Position,
    cells: spec_fn(VoxelNode) -> u64,
    max_level: i32,
)
    requires
        node.key.on_grid(),
        node.key.level <= max_level <= crate::grouping::DEEPEST_ON_GRID,
        node.bounds == box_of(cube, answers.center, node.key),
        crate::geometry::contains(node.bounds, p),
    ensures
        ({
            let end = crate::voxel::descent(
                claimed,
                node,
                p,
                cells,
                crate::ledger::centers_of(answers),
                max_level,
            ).node;
            &&& end.bounds == box_of(cube, answers.center, end.key)
            &&& crate::geometry::contains(box_of(cube, answers.center, end.key), p)
        }),
    decreases max_level - node.key.level,
{
    let at = (node.key, cells(node));
    let centers = crate::ledger::centers_of(answers);
    if claimed.contains(at) && node.key.level < max_level {
        let center = (answers.center)(node.bounds);
        let dir = crate::geometry::direction(p, center);
        assert(centers(node) == center);
        crate::geometry::lemma_octant_keeps_point(node.bounds, center, p);
        lemma_octant_has_its_box(cube, answers.center, node.key, node.bounds, dir);
        crate::key::lemma_octant_is_on_grid(node.key, dir);
        lemma_voxel_point_is_in_its_box(
            cube,
            answers,
            claimed.insert(at),
            node.toward(p, center),
            p,
            cells,
            max_level,
        );
    }
}

/// Whether every node of the octree has the box of its key.
pub open spec fn nodes_have_their_boxes(tree: OctreeView, center: spec_fn(Bounds) -> Position) -> bool {
    forall|i: int|
        0 <= i < tree.nodes.len() ==> (#[trigger] tree.nodes[i]).bounds == box_of(
            tree.nodes[0].bounds,
            center,
            tree.nodes[i].entry.key,
        )
}

/// A new octree has one node, with the box of its key.
pub proof fn lemma_new_octree_has_its_boxes(
    tree: OctreeView,
    center: spec_fn(Bounds) -> Position,
)
    requires
        tree.wf(),
        tree.nodes.len() == 1,
    ensures
        nodes_have_their_boxes(tree, center),
{
}

/// Placing a point and dividing a node at its center leave every node the box of its
/// key.
pub proof fn lemma_octree_keeps_its_boxes(
    tree: OctreeView,
    center: spec_fn(Bounds) -> Position,
    i: int,
)
    requires
        tree.wf(),
        0 <= i < tree.nodes.len(),
        nodes_have_their_boxes(tree, center),
    ensures
        nodes_have_their_boxes(tree.placed(i), center),
        tree.nodes[i].entry.key.level <= 30 ==> nodes_have_their_boxes(
            tree.divided(i, center(tree.nodes[i].bounds)),
            center,
        ),
{
    let cube = tree.nodes[0].bounds;
    let placed = tree.placed(i);
    assert forall|j: int| 0 <= j < placed.nodes.len() implies (#[trigger] placed.nodes[j]).bounds
        == box_of(placed.nodes[0].bounds, center, placed.nodes[j].entry.key) by {
        assert(tree.nodes[j].bounds == box_of(cube, center, tree.nodes[j].entry.key));
    }
    if tree.nodes[i].entry.key.level <= 30 {
        let node = tree.nodes[i];
        let divided = tree.divided(i, center(node.bounds));
        let len = tree.nodes.len();
        assert forall|j: int| 0 <= j < divided.nodes.len() implies (
        #[trigger] divided.nodes[j]).bounds == box_of(
            divided.nodes[0].bounds,
            center,
            divided.nodes[j].entry.key,
        ) by {
            if j < len {
                assert(tree.nodes[j].bounds == box_of(cube, center, tree.nodes[j].entry.key));
            } else {
                assert(node.entry.key.on_grid());
                lemma_octant_has_its_box(cube, center, node.entry.key, node.bounds, j - len);
            }
        }
    }
}

/// Whether the ledger `after` is `before` with one more record, at the end of the chunk
/// of `key`, which is handed out with it or stays.
pub open spec fn adds_record_to(before: Ledger, after: Ledger, key: VoxelKey, record: Seq<u8>) -> bool {
    let grown = crate::grouping::records_at(before.chunks, key) + seq![record];
    &&& forall|other: VoxelKey|
        other != key ==> #[trigger] crate::grouping::records_at(after.chunks, other)
            == crate::grouping::records_at(before.chunks, other)
    &&& {
        ||| {
            &&& crate::grouping::records_at(after.chunks, key) == grown
            &&& after.handed == before.handed
        }
        ||| {
            &&& crate::grouping::records_at(after.chunks, key).len() == 0
            &&& after.handed == before.handed + seq![(key, grown)]
        }
    }
}

proof fn lemma_recording_adds_record(
    before: Ledger,
    ledger: Ledger,
    key: VoxelKey,
    full: bool,
    record: Seq<u8>,
)
    requires
        ledger.chunks == before.chunks,
        ledger.handed == before.handed,
    ensures
        adds_record_to(before, ledger.recorded(key, full, record), key, record),
{
    let old = crate::grouping::records_at(before.chunks, key);
    assert(old.push(record) =~= old + seq![record]);
    assert(before.handed.push((key, old.push(record))) =~= before.handed + seq![
        (key, old + seq![record]),
    ]);
}

/// A point that is taken in goes to one node, at the end of its chunk, and the box that
/// the key of the node stands for has the point. So whoever looks for points in a region
/// finds it in a node whose box meets the region.
pub proof fn lemma_point_is_in_the_box_of_its_key(
    ledger: Ledger,
    greedy: bool,
    point: PointInfo,
    record: Seq<u8>,
    answers: Answers,
) -> (key: VoxelKey)
    requires
        crate::laws::is_sound(ledger, greedy),
        ledger.offer(point).taken(),
        greedy ==> {
            &&& ledger.octree.nodes.len() <= usize::MAX
            &&& nodes_have_their_boxes(ledger.octree, answers.center)
            &&& crate::laws::is_shallow(ledger.taken(greedy, point, record, answers))
        },
    ensures
        ({
            let after = ledger.taken(greedy, point, record, answers);
            &&& adds_record_to(ledger, after, key, record)
            &&& crate::geometry::contains(
                box_of(ledger.cube(), answers.center, key),
                point.position,
            )
            &&& greedy ==> nodes_have_their_boxes(after.octree, answers.center)
        }),
{
    let p = point.position;
    let tree = ledger.octree;
    let after = ledger.taken(greedy, point, record, answers);
    let counted = Ledger {
        error: crate::ingest::noted(ledger.error, ledger.offer(point), ledger.format),
        points: ledger.points + 1,
        info: crate::writer::with_time(ledger.info, point.gps_time),
        ..ledger
    };
    if greedy {
        let i = tree.find(0, p);
        crate::octree::lemma_find_contains(tree, 0, p);
        if tree.nodes[i].full(ledger.max_node_size) {
            let center = (answers.center)(tree.nodes[i].bounds);
            let divided = counted.divided(i, answers);
            let next = divided.octree.find(0, p);
            assert(tree.nodes[i].entry.key.level <= 31);
            crate::octree::lemma_division_makes_room(tree, center, p);
            assert(after.octree.nodes[tree.nodes.len() as int].entry.key.level
                == tree.nodes[i].entry.key.level + 1);
            crate::octree::lemma_divided_is_wf(tree, i, center);
            lemma_octree_keeps_its_boxes(tree, answers.center, i);
            lemma_octree_keeps_its_boxes(divided.octree, answers.center, next);
            let node = divided.octree.nodes[next];
            lemma_recording_adds_record(
                ledger,
                Ledger { octree: divided.octree.placed(next), ..divided },
                node.entry.key,
                node.with_point().full(ledger.max_node_size) && (node.entry.key.level != 0
                    || ledger.min_node_size == 1),
                record,
            );
            node.entry.key
        } else {
            lemma_octree_keeps_its_boxes(tree, answers.center, i);
            let node = tree.nodes[i];
            lemma_recording_adds_record(
                ledger,
                Ledger { octree: tree.placed(i), ..counted },
                node.entry.key,
                node.with_point().full(ledger.max_node_size) && (node.entry.key.level != 0
                    || ledger.min_node_size == 1),
                record,
            );
            node.entry.key
        }
    } else {
        let root = VoxelNode { key: VoxelKey::root(), bounds: ledger.cube() };
        let cells = crate::ledger::cells_of(answers, p, ledger.grid());
        let end = crate::voxel::descent(
            ledger.claimed,
            root,
            p,
            cells,
            crate::ledger::centers_of(answers),
            ledger.max_level,
        );
        vstd::arithmetic::power2::lemma2_to64();
        lemma_voxel_point_is_in_its_box(
            ledger.cube(),
            answers,
            ledger.claimed,
            root,
            p,
            cells,
            ledger.max_level,
        );
        lemma_recording_adds_record(
            ledger,
            Ledger { claimed: end.claimed, ..counted },
            end.node.key,
            false,
            record,
        );
        end.node.key
    }
}

} // verus!
