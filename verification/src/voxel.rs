//! The voxel strategy: every octree node has a grid of cells, and the first
//! point to reach a cell stays with the node as the cell's representative. The
//! others go on to the node's octants, down to a deepest level that takes all.

use crate::geometry::{octant_of, split_bounds, Bounds, Position};
use crate::key::VoxelKey;
use crate::keymap::KeyMap;
use crate::scalar::{is_normal, magnitude_of, SIGN_BIT};
use std::collections::HashSet;
use vstd::prelude::*;

verus! {

broadcast use vstd::std_specs::hash::group_hash_axioms;

/// The deepest level where the resolution of the coordinates is not known.
pub const DEFAULT_MAX_VOXEL_LEVEL: i32 = 18;

/// No octree is deeper than this.
pub const MAX_VOXEL_LEVEL_CAP: i32 = 24;

/// The largest grid whose cells can be numbered.
pub const MAX_GRID: i64 = 2_097_151;

/// `v` brought into `low..=high`.
pub open spec fn clamped(v: int, low: int, high: int) -> int {
    if v < low {
        low
    } else if v > high {
        high
    } else {
        v
    }
}

/// Whether `r` is the integer nearest to the square root of `n`: the root is
/// between `r - 1/2` and `r + 1/2`. It is never halfway.
pub open spec fn nearest_root(n: int, r: int) -> bool {
    r >= 0 && (r > 0 ==> (2 * r - 1) * (2 * r - 1) < 4 * n) && 4 * n < (2 * r + 1) * (2 * r + 1)
}

/// The integer nearest to the square root of `n`.
pub open spec fn rounded_root(n: int) -> int {
    choose|r: int| nearest_root(n, r)
}

/// The cells along an edge of a node's grid, where a node takes `max` points.
pub open spec fn grid_of(max: i32) -> int {
    if rounded_root(max as int) < 2 {
        2
    } else {
        rounded_root(max as int)
    }
}

/// The number of the cell that the grid coordinates stand for; coordinates
/// outside the grid stand for its outermost cells.
pub open spec fn cell_number(x: int, y: int, z: int, grid: int) -> int {
    clamped(x, 0, grid - 1) + clamped(y, 0, grid - 1) * grid + clamped(z, 0, grid - 1) * grid * grid
}

proof fn lemma_nearest_root_from(n: int, r: int) -> (root: int)
    requires
        1 <= n <= i32::MAX,
        1 <= r <= 46341,
        r * (r - 1) < n,
    ensures
        1 <= root <= 46341,
        nearest_root(n, root),
    decreases 46341 - r,
{
    if r * r + r < n {
        assert(r < 46341) by (nonlinear_arith)
            requires
                r * r + r < n,
                n <= 0x7fff_ffff,
                1 <= r <= 46341,
        ;
        assert((r + 1) * r == r * r + r) by (nonlinear_arith);
        lemma_nearest_root_from(n, r + 1)
    } else {
        assert((2 * r - 1) * (2 * r - 1) == 4 * (r * (r - 1)) + 1) by (nonlinear_arith);
        assert((2 * r + 1) * (2 * r + 1) == 4 * (r * r + r) + 1) by (nonlinear_arith);
        r
    }
}

/// A grid has at least 2 cells along an edge, and no more than can be counted.
pub proof fn lemma_grid_is_bounded(max: i32)
    requires
        max >= 1,
    ensures
        2 <= grid_of(max) <= MAX_GRID,
{
    let root = lemma_nearest_root_from(max as int, 1);
    lemma_nearest_root_is_unique(max as int, root, rounded_root(max as int));
}

/// The smallest of the three scales, without their signs. What is not a number
/// is larger than all numbers here.
pub open spec fn finest_scale(scale: Position) -> u64 {
    let x = crate::scalar::magnitude(scale.x);
    let y = crate::scalar::magnitude(scale.y);
    let z = crate::scalar::magnitude(scale.z);
    if x <= y && x <= z {
        x
    } else if y <= z {
        y
    } else {
        z
    }
}

/// The deepest level: that at which a node's `edge` comes down to the `scale`
/// of the coordinates, as `measured` from the two numbers, within
/// `0..=MAX_VOXEL_LEVEL_CAP`.
pub open spec fn deepest_level(edge: u64, scale: u64, measured: i32) -> int {
    if crate::scalar::normal(edge) && crate::scalar::normal(scale) && scale < SIGN_BIT {
        clamped(measured as int, 0, MAX_VOXEL_LEVEL_CAP as int)
    } else {
        DEFAULT_MAX_VOXEL_LEVEL as int
    }
}

/// The cells along an edge of a node's grid: the square root of the most
/// points that a node takes, to the nearest integer, and at least 2.
pub fn voxel_grid_size(max_node_size: i32) -> (res: i64)
    requires
        max_node_size >= 1,
    ensures
        res == grid_of(max_node_size),
        nearest_root(max_node_size as int, rounded_root(max_node_size as int)),
        2 <= res <= 46341,
{
    let n: i64 = max_node_size as i64;
    let mut r: i64 = 1;
    assert(r * (r - 1) == 0 && r * r == 1) by (nonlinear_arith)
        requires
            r == 1,
    ;
    while r * r + r < n
        invariant
            1 <= r <= 46341,
            r * (r - 1) < n,
            0 <= r * r <= 46341 * 46341,
            n <= 0x7fff_ffff,
        decreases 46341 - r,
    {
        assert(r < 46341) by (nonlinear_arith)
            requires
                r * r + r < n,
                n <= 0x7fff_ffff,
                1 <= r <= 46341,
        ;
        assert((r + 1) * r == r * r + r) by (nonlinear_arith);
        r = r + 1;
        assert(0 <= r * r <= 46341 * 46341) by (nonlinear_arith)
            requires
                1 <= r <= 46341,
        ;
    }
    proof {
        assert((2 * r - 1) * (2 * r - 1) == 4 * (r * (r - 1)) + 1) by (nonlinear_arith);
        assert((2 * r + 1) * (2 * r + 1) == 4 * (r * r + r) + 1) by (nonlinear_arith);
        assert(nearest_root(n as int, r as int));
        lemma_nearest_root_is_unique(n as int, r as int, rounded_root(n as int));
    }
    if r < 2 {
        2
    } else {
        r
    }
}

/// There is only one nearest integer.
pub proof fn lemma_nearest_root_is_unique(n: int, a: int, b: int)
    requires
        nearest_root(n, a),
        nearest_root(n, b),
    ensures
        a == b,
{
    if a < b {
        assert((2 * a + 1) * (2 * a + 1) <= (2 * b - 1) * (2 * b - 1)) by (nonlinear_arith)
            requires
                0 <= a < b,
        ;
    }
    if b < a {
        assert((2 * b + 1) * (2 * b + 1) <= (2 * a - 1) * (2 * a - 1)) by (nonlinear_arith)
            requires
                0 <= b < a,
        ;
    }
}

/// The smallest of the three scales, without their signs.
pub fn voxel_scale(scale: &Position) -> (res: u64)
    ensures
        res == finest_scale(*scale),
{
    let mut least: u64 = magnitude_of(scale.x);
    if magnitude_of(scale.y) < least {
        least = magnitude_of(scale.y);
    }
    if magnitude_of(scale.z) < least {
        least = magnitude_of(scale.z);
    }
    least
}

/// The deepest level of the octree, from the edge of the root's cube, the scale
/// of the coordinates, and the number of halvings `measured` from one to the
/// other.
pub fn max_voxel_level(edge: u64, scale: u64, measured: i32) -> (res: i32)
    ensures
        res == deepest_level(edge, scale, measured),
        0 <= res <= MAX_VOXEL_LEVEL_CAP,
{
    if is_normal(edge) && is_normal(scale) && scale < SIGN_BIT {
        if measured < 0 {
            0
        } else if measured > MAX_VOXEL_LEVEL_CAP {
            MAX_VOXEL_LEVEL_CAP
        } else {
            measured
        }
    } else {
        DEFAULT_MAX_VOXEL_LEVEL
    }
}

fn clamp_index(v: i64, grid: i64) -> (res: i64)
    requires
        grid >= 1,
    ensures
        res == clamped(v as int, 0, grid - 1),
        0 <= res < grid,
{
    if v < 0 {
        0
    } else if v > grid - 1 {
        grid - 1
    } else {
        v
    }
}

/// The number of the cell with the grid coordinates `x`, `y` and `z`.
pub fn voxel_cell(x: i64, y: i64, z: i64, grid: i64) -> (res: u64)
    requires
        1 <= grid <= MAX_GRID,
    ensures
        res == cell_number(x as int, y as int, z as int, grid as int),
        res < grid * grid * grid,
{
    let cx: i64 = clamp_index(x, grid);
    let cy: i64 = clamp_index(y, grid);
    let cz: i64 = clamp_index(z, grid);
    proof {
        lemma_cell_in_grid(cx as int, cy as int, cz as int, grid as int);
    }
    (cx + cy * grid + cz * grid * grid) as u64
}

proof fn lemma_cell_in_grid(x: int, y: int, z: int, grid: int)
    requires
        1 <= grid <= MAX_GRID,
        0 <= x < grid,
        0 <= y < grid,
        0 <= z < grid,
    ensures
        0 <= y * grid <= y * grid + x < grid * grid,
        0 <= z * grid,
        z * grid < 0x7fff_ffff_ffff,
        0 <= z * grid * grid,
        z * grid * grid + y * grid + x < grid * grid * grid,
        grid * grid * grid <= i64::MAX,
{
    assert(0 <= y * grid && y * grid + x < grid * grid) by (nonlinear_arith)
        requires
            0 <= y < grid,
            0 <= x < grid,
    ;
    assert(0 <= z * grid <= MAX_GRID * MAX_GRID) by (nonlinear_arith)
        requires
            0 <= z < grid,
            grid <= MAX_GRID,
    ;
    let plane = grid * grid;
    assert(0 <= plane <= MAX_GRID * MAX_GRID) by (nonlinear_arith)
        requires
            plane == grid * grid,
            1 <= grid <= MAX_GRID,
    ;
    assert(z * grid * grid == z * plane) by (nonlinear_arith)
        requires
            plane == grid * grid,
    ;
    assert(0 <= z * plane && z * plane + plane <= grid * plane) by (nonlinear_arith)
        requires
            0 <= z < grid,
            0 <= plane,
    ;
    assert(grid * plane == grid * grid * grid) by (nonlinear_arith)
        requires
            plane == grid * grid,
    ;
    assert(grid * plane <= MAX_GRID * (MAX_GRID * MAX_GRID)) by (nonlinear_arith)
        requires
            1 <= grid <= MAX_GRID,
            0 <= plane <= MAX_GRID * MAX_GRID,
    ;
}

/// The number of a cell is below the number of cells.
pub proof fn lemma_cell_number_is_bounded(x: int, y: int, z: int, grid: int)
    requires
        1 <= grid <= MAX_GRID,
    ensures
        0 <= cell_number(x, y, z, grid) < grid * grid * grid,
        grid * grid * grid <= i64::MAX,
{
    lemma_cell_in_grid(
        clamped(x, 0, grid - 1),
        clamped(y, 0, grid - 1),
        clamped(z, 0, grid - 1),
        grid,
    );
}

/// Cells of the grid have different numbers.
pub proof fn lemma_cell_numbers_differ(x: int, y: int, z: int, a: int, b: int, c: int, grid: int)
    requires
        1 <= grid <= MAX_GRID,
        0 <= x < grid && 0 <= y < grid && 0 <= z < grid,
        0 <= a < grid && 0 <= b < grid && 0 <= c < grid,
        cell_number(x, y, z, grid) == cell_number(a, b, c, grid),
    ensures
        x == a,
        y == b,
        z == c,
{
    let yz = y + z * grid;
    let bc = b + c * grid;
    assert(cell_number(x, y, z, grid) == x + yz * grid) by (nonlinear_arith)
        requires
            cell_number(x, y, z, grid) == x + y * grid + z * grid * grid,
            yz == y + z * grid,
    ;
    assert(cell_number(a, b, c, grid) == a + bc * grid) by (nonlinear_arith)
        requires
            cell_number(a, b, c, grid) == a + b * grid + c * grid * grid,
            bc == b + c * grid,
    ;
    lemma_digits_of(x, yz, a, bc, grid);
    lemma_digits_of(y, z, b, c, grid);
}

proof fn lemma_digits_of(low: int, high: int, low2: int, high2: int, grid: int)
    by (nonlinear_arith)
    requires
        0 <= low < grid,
        0 <= low2 < grid,
        low + high * grid == low2 + high2 * grid,
    ensures
        low == low2,
        high == high2,
{
    assert((high - high2) * grid == low2 - low);
    if high > high2 {
        assert((high - high2) * grid >= grid);
    }
    if high2 > high {
        assert((high2 - high) * grid >= grid);
    }
}

/// The cells that have a representative, for each node.
pub struct Occupancy {
    cells: KeyMap<HashSet<u64>>,
}

impl View for Occupancy {
    type V = Set<(VoxelKey, u64)>;

    closed spec fn view(&self) -> Set<(VoxelKey, u64)> {
        Set::new(
            |at: (VoxelKey, u64)| self.cells@.contains_key(at.0) && self.cells@[at.0]@.contains(at.1),
        )
    }
}

impl Occupancy {
    /// No cell has a representative.
    pub fn new() -> (res: Occupancy)
        ensures
            res@ == Set::<(VoxelKey, u64)>::empty(),
    {
        let res = Occupancy { cells: KeyMap::new() };
        assert(res@ =~= Set::<(VoxelKey, u64)>::empty());
        res
    }

    /// Gives `cell` of the node `key` a representative. Returns whether it had none.
    pub fn claim(&mut self, key: VoxelKey, cell: u64) -> (res: bool)
        ensures
            res == !old(self)@.contains((key, cell)),
            final(self)@ == old(self)@.insert((key, cell)),
    {
        let mut cells: HashSet<u64> = match self.cells.remove(&key) {
            Some(cells) => cells,
            None => HashSet::new(),
        };
        let res: bool = cells.insert(cell);
        self.cells.insert(key, cells);
        assert(self@ =~= old(self)@.insert((key, cell)));
        res
    }
}

/// A node on a point's way down: its key and its box.
#[derive(Clone, Copy, Debug, PartialEq, Eq, Structural)]
pub struct VoxelNode {
    pub key: VoxelKey,
    pub bounds: Bounds,
}

impl VoxelNode {
    /// The octant that `p` goes to when the box is cut at `center`.
    pub open spec fn toward(self, p: Position, center: Position) -> VoxelNode {
        let dir = crate::geometry::direction(p, center);
        VoxelNode {
            key: self.key.octant_key(dir),
            bounds: crate::geometry::octant(self.bounds, center, dir),
        }
    }
}

/// Where a point goes from a node.
#[derive(Debug)]
pub enum VoxelStep {
    /// It stays with the node of `key`.
    Place { key: VoxelKey },
    /// It goes on to this octant.
    Descend { node: VoxelNode },
}

/// Whether a point stays with a node or goes on: it stays where it is the first
/// in its cell, and on the deepest level. Where it goes on, it goes to the
/// octant that contains it, which is one level deeper.
pub fn voxel_step(
    occupancy: &mut Occupancy,
    node: &VoxelNode,
    cell: u64,
    p: &Position,
    center: &Position,
    max_level: i32,
) -> (step: VoxelStep)
    ensures
        final(occupancy)@ == old(occupancy)@.insert((node.key, cell)),
        step == (if !old(occupancy)@.contains((node.key, cell)) || node.key.level >= max_level {
            VoxelStep::Place { key: node.key }
        } else {
            VoxelStep::Descend { node: node.toward(*p, *center) }
        }),
        step matches VoxelStep::Descend { node: next } ==> {
            &&& next.key.level == node.key.level + 1
            &&& next.key.level <= max_level
            &&& crate::geometry::contains(node.bounds, *p) ==> crate::geometry::contains(
                next.bounds,
                *p,
            )
        },
{
    let claimed: bool = occupancy.claim(node.key, cell);
    if claimed || node.key.level >= max_level {
        return VoxelStep::Place { key: node.key };
    }
    let dir: i32 = octant_of(p, center);
    VoxelStep::Descend {
        node: VoxelNode {
            key: node.key.child(dir),
            bounds: split_bounds(&node.bounds, center, dir),
        },
    }
}

/// Where a point ends up, and which cells have a representative then.
#[verifier::ext_equal]
pub struct Descent {
    pub node: VoxelNode,
    pub claimed: Set<(VoxelKey, u64)>,
}

/// The way of `p` down from `node`, step by step, where `cells` gives its cell
/// in a node's grid and `centers` the center of a node's box.
pub open spec fn descent(
    claimed: Set<(VoxelKey, u64)>,
    node: VoxelNode,
    p: Position,
    cells: spec_fn(VoxelNode) -> u64,
    centers: spec_fn(VoxelNode) -> Position,
    max_level: i32,
) -> Descent
    decreases max_level - node.key.level,
{
    let at = (node.key, cells(node));
    if !claimed.contains(at) || node.key.level >= max_level {
        Descent { node, claimed: claimed.insert(at) }
    } else {
        descent(
            claimed.insert(at),
            node.toward(p, centers(node)),
            p,
            cells,
            centers,
            max_level,
        )
    }
}

/// The way down ends, on the deepest level at the latest, in a node that
/// contains the point.
pub proof fn lemma_descent_keeps_point(
    claimed: Set<(VoxelKey, u64)>,
    node: VoxelNode,
    p: Position,
    cells: spec_fn(VoxelNode) -> u64,
    centers: spec_fn(VoxelNode) -> Position,
    max_level: i32,
)
    requires
        crate::geometry::contains(node.bounds, p),
        node.key.level <= max_level,
    ensures
        ({
            let end = descent(claimed, node, p, cells, centers, max_level);
            &&& crate::geometry::contains(end.node.bounds, p)
            &&& node.key.level <= end.node.key.level <= max_level
        }),
    decreases max_level - node.key.level,
{
    let at = (node.key, cells(node));
    if claimed.contains(at) && node.key.level < max_level {
        let next = node.toward(p, centers(node));
        crate::geometry::lemma_octant_keeps_point(node.bounds, centers(node), p);
        lemma_descent_keeps_point(claimed.insert(at), next, p, cells, centers, max_level);
    }
}

/// A point that ends up above the deepest level is the representative of a cell
/// that had none; cells keep their representatives.
pub proof fn lemma_descent_claims_a_cell(
    claimed: Set<(VoxelKey, u64)>,
    node: VoxelNode,
    p: Position,
    cells: spec_fn(VoxelNode) -> u64,
    centers: spec_fn(VoxelNode) -> Position,
    max_level: i32,
)
    requires
        node.key.level <= max_level,
    ensures
        ({
            let end = descent(claimed, node, p, cells, centers, max_level);
            &&& claimed.subset_of(end.claimed)
            &&& end.claimed.contains((end.node.key, cells(end.node)))
            &&& end.node.key.level < max_level ==> !claimed.contains((end.node.key, cells(end.node)))
        }),
    decreases max_level - node.key.level,
{
    let at = (node.key, cells(node));
    if claimed.contains(at) && node.key.level < max_level {
        let next = node.toward(p, centers(node));
        lemma_descent_claims_a_cell(claimed.insert(at), next, p, cells, centers, max_level);
    }
}

/// Above the deepest level a cell has one representative: of two points, one
/// placed some time after the other, only one stays in a given cell of a node.
pub proof fn lemma_one_representative_per_cell(
    claimed: Set<(VoxelKey, u64)>,
    later: Set<(VoxelKey, u64)>,
    root: VoxelNode,
    p: Position,
    p_cells: spec_fn(VoxelNode) -> u64,
    q: Position,
    q_cells: spec_fn(VoxelNode) -> u64,
    centers: spec_fn(VoxelNode) -> Position,
    max_level: i32,
)
    requires
        root.key.level <= max_level,
        descent(claimed, root, p, p_cells, centers, max_level).claimed.subset_of(later),
    ensures
        ({
            let p_end = descent(claimed, root, p, p_cells, centers, max_level).node;
            let q_end = descent(later, root, q, q_cells, centers, max_level).node;
            p_end.key == q_end.key && p_end.key.level < max_level ==> p_cells(p_end) != q_cells(q_end)
        }),
{
    lemma_descent_claims_a_cell(claimed, root, p, p_cells, centers, max_level);
    lemma_descent_claims_a_cell(later, root, q, q_cells, centers, max_level);
}

/// The cells of the node `key` that have a representative.
pub open spec fn claims_of(claimed: Set<(VoxelKey, u64)>, key: VoxelKey) -> Set<(VoxelKey, u64)> {
    claimed.filter(|at: (VoxelKey, u64)| at.0 == key)
}

/// How many cells of the node `key` have a representative.
pub open spec fn representatives(claimed: Set<(VoxelKey, u64)>, key: VoxelKey) -> nat {
    claims_of(claimed, key).len()
}

/// A claim gives one node one more representative, unless the cell had one.
pub proof fn lemma_claim_adds_a_representative(
    claimed: Set<(VoxelKey, u64)>,
    at: (VoxelKey, u64),
    key: VoxelKey,
)
    requires
        claimed.finite(),
    ensures
        representatives(claimed.insert(at), key) == representatives(claimed, key) + (if at.0 == key
            && !claimed.contains(at) {
            1nat
        } else {
            0
        }),
{
    let before = claims_of(claimed, key);
    let after = claims_of(claimed.insert(at), key);
    vstd::set_lib::lemma_set_subset_finite(claimed, before);
    if at.0 == key {
        assert(after =~= before.insert(at));
    } else {
        assert(after =~= before);
    }
}

/// A node has no more representatives than its grid has cells.
pub proof fn lemma_representatives_are_bounded(
    claimed: Set<(VoxelKey, u64)>,
    key: VoxelKey,
    grid: int,
)
    requires
        1 <= grid <= MAX_GRID,
        claimed.finite(),
        forall|at: (VoxelKey, u64)| #[trigger] claimed.contains(at) ==> at.1 < grid * grid * grid,
    ensures
        representatives(claimed, key) <= grid * grid * grid,
{
    let count = grid * grid * grid;
    assert(count >= 0) by (nonlinear_arith)
        requires
            count == grid * grid * grid,
            grid >= 1,
    ;
    let mine = claims_of(claimed, key);
    vstd::set_lib::lemma_set_subset_finite(claimed, mine);
    let number = |at: (VoxelKey, u64)| at.1 as int;
    let numbers = mine.map(number);
    assert(vstd::relations::injective_on(number, mine));
    vstd::set_lib::lemma_map_size(mine, numbers, number);
    vstd::set_lib::lemma_int_range(0, count);
    assert(numbers.subset_of(vstd::set_lib::set_int_range(0, count)));
    vstd::set_lib::lemma_len_subset(numbers, vstd::set_lib::set_int_range(0, count));
}

/// A point claims no cell but the one that it ends up in; the others on its way
/// were claimed before.
pub proof fn lemma_descent_claims_one_cell(
    claimed: Set<(VoxelKey, u64)>,
    node: VoxelNode,
    p: Position,
    cells: spec_fn(VoxelNode) -> u64,
    centers: spec_fn(VoxelNode) -> Position,
    max_level: i32,
)
    ensures
        ({
            let end = descent(claimed, node, p, cells, centers, max_level);
            end.claimed == claimed.insert((end.node.key, cells(end.node)))
        }),
    decreases max_level - node.key.level,
{
    let at = (node.key, cells(node));
    if claimed.contains(at) && node.key.level < max_level {
        assert(claimed.insert(at) =~= claimed);
        lemma_descent_claims_one_cell(
            claimed.insert(at),
            node.toward(p, centers(node)),
            p,
            cells,
            centers,
            max_level,
        );
    }
}

/// The nodes that a point passes on its way down, from the top.
pub open spec fn passed(
    claimed: Set<(VoxelKey, u64)>,
    node: VoxelNode,
    p: Position,
    cells: spec_fn(VoxelNode) -> u64,
    centers: spec_fn(VoxelNode) -> Position,
    max_level: i32,
) -> Seq<VoxelNode>
    decreases max_level - node.key.level,
{
    let at = (node.key, cells(node));
    if !claimed.contains(at) || node.key.level >= max_level {
        Seq::empty()
    } else {
        seq![node] + passed(
            claimed.insert(at),
            node.toward(p, centers(node)),
            p,
            cells,
            centers,
            max_level,
        )
    }
}

/// Every node above a point holds an earlier point of the same cell: the point
/// passes one node on each level, each an octant of the one before, and the last one
/// has the node that it ends up in as an octant; in each of them its cell had a
/// representative before it came.
pub proof fn lemma_nodes_above_hold_earlier_points(
    claimed: Set<(VoxelKey, u64)>,
    node: VoxelNode,
    p: Position,
    cells: spec_fn(VoxelNode) -> u64,
    centers: spec_fn(VoxelNode) -> Position,
    max_level: i32,
    i: int,
)
    requires
        0 <= i < passed(claimed, node, p, cells, centers, max_level).len(),
    ensures
        ({
            let way = passed(claimed, node, p, cells, centers, max_level);
            let end = descent(claimed, node, p, cells, centers, max_level);
            let next = if i + 1 < way.len() {
                way[i + 1]
            } else {
                end.node
            };
            &&& way[0] == node
            &&& claimed.contains((way[i].key, cells(way[i])))
            &&& next == way[i].toward(p, centers(way[i]))
            &&& way[i].key.level == node.key.level + i
            &&& end.node.key.level == node.key.level + way.len()
        }),
    decreases max_level - node.key.level,
{
    let at = (node.key, cells(node));
    if claimed.contains(at) && node.key.level < max_level {
        let next = node.toward(p, centers(node));
        let rest = passed(claimed.insert(at), next, p, cells, centers, max_level);
        assert(claimed.insert(at) =~= claimed);
        let way = passed(claimed, node, p, cells, centers, max_level);
        let end = descent(claimed.insert(at), next, p, cells, centers, max_level);
        assert(way =~= seq![node] + rest);
        assert(descent(claimed, node, p, cells, centers, max_level) == end);
        assert(rest.len() == 0 ==> end.node == next);
        assert(forall|j: int| 0 < j < way.len() ==> way[j] == rest[j - 1]);
        if rest.len() > 0 {
            lemma_nodes_above_hold_earlier_points(
                claimed.insert(at),
                next,
                p,
                cells,
                centers,
                max_level,
                if i > 0 {
                    i - 1
                } else {
                    0
                },
            );
        }
    }
}

/// Whether the node `key` is the root, or an octant of a node in which a cell has a
/// representative.
pub open spec fn is_rooted(claimed: Set<(VoxelKey, u64)>, key: VoxelKey) -> bool {
    key == VoxelKey::root() || exists|parent: (VoxelKey, u64), dir: int|
        claimed.contains(parent) && 0 <= dir < 8 && key == #[trigger] parent.0.octant_key(dir)
            && key.level == parent.0.level + 1
}

/// A point ends up in the root or in an octant of a node that has points.
pub proof fn lemma_descent_ends_below_a_point(
    claimed: Set<(VoxelKey, u64)>,
    node: VoxelNode,
    p: Position,
    cells: spec_fn(VoxelNode) -> u64,
    centers: spec_fn(VoxelNode) -> Position,
    max_level: i32,
)
    requires
        is_rooted(claimed, node.key),
    ensures
        is_rooted(claimed, descent(claimed, node, p, cells, centers, max_level).node.key),
    decreases max_level - node.key.level,
{
    let at = (node.key, cells(node));
    if claimed.contains(at) && node.key.level < max_level {
        let center = centers(node);
        let dir = crate::geometry::direction(p, center);
        assert(claimed.insert(at) =~= claimed);
        assert(node.toward(p, center).key == at.0.octant_key(dir));
        lemma_descent_ends_below_a_point(
            claimed.insert(at),
            node.toward(p, center),
            p,
            cells,
            centers,
            max_level,
        );
    }
}

/// A point on its way down stays on the grid, and above or on the deepest level.
pub proof fn lemma_descent_stays_on_grid(
    claimed: Set<(VoxelKey, u64)>,
    node: VoxelNode,
    p: Position,
    cells: spec_fn(VoxelNode) -> u64,
    centers: spec_fn(VoxelNode) -> Position,
    max_level: i32,
)
    requires
        node.key.on_grid(),
        node.key.level <= max_level,
    ensures
        ({
            let key = descent(claimed, node, p, cells, centers, max_level).node.key;
            key.on_grid() && key.level <= max_level
        }),
    decreases max_level - node.key.level,
{
    let at = (node.key, cells(node));
    if claimed.contains(at) && node.key.level < max_level {
        let center = centers(node);
        crate::key::lemma_octant_is_on_grid(node.key, crate::geometry::direction(p, center));
        lemma_descent_stays_on_grid(
            claimed.insert(at),
            node.toward(p, center),
            p,
            cells,
            centers,
            max_level,
        );
    }
}

/// A grid has as many cells along an edge as the square root of the most points that a
/// node takes, to the nearest integer, and at least 2: the root differs from it by less
/// than one half.
pub proof fn lemma_grid_is_the_square_root(max: i32)
    requires
        max >= 1,
    ensures
        ({
            let grid = grid_of(max);
            &&& grid >= 2
            &&& 4 * max < (2 * grid + 1) * (2 * grid + 1)
            &&& grid > 2 ==> (2 * grid - 1) * (2 * grid - 1) < 4 * max
        }),
{
    let root = lemma_nearest_root_from(max as int, 1);
    lemma_nearest_root_is_unique(max as int, root, rounded_root(max as int));
    if root < 2 {
        assert((2 * root + 1) * (2 * root + 1) <= 9) by (nonlinear_arith)
            requires
                0 <= root < 2,
        ;
        assert(5int * 5 == 25);
    }
}

/// Coordinates outside the grid stand for its outermost cells, and within it one step
/// along an axis is one cell on.
pub proof fn lemma_cells_beyond_the_grid(x: int, y: int, z: int, grid: int)
    requires
        1 <= grid,
    ensures
        x < 0 ==> cell_number(x, y, z, grid) == cell_number(0, y, z, grid),
        y < 0 ==> cell_number(x, y, z, grid) == cell_number(x, 0, z, grid),
        z < 0 ==> cell_number(x, y, z, grid) == cell_number(x, y, 0, grid),
        x >= grid ==> cell_number(x, y, z, grid) == cell_number(grid - 1, y, z, grid),
        y >= grid ==> cell_number(x, y, z, grid) == cell_number(x, grid - 1, z, grid),
        z >= grid ==> cell_number(x, y, z, grid) == cell_number(x, y, grid - 1, grid),
        0 <= x < grid - 1 ==> cell_number(x + 1, y, z, grid) == cell_number(x, y, z, grid) + 1,
{
}

/// The finest scale is one of the three, without its sign, and none of them is finer.
pub proof fn lemma_finest_scale(scale: Position)
    ensures
        ({
            let finest = finest_scale(scale);
            let x = crate::scalar::magnitude(scale.x);
            let y = crate::scalar::magnitude(scale.y);
            let z = crate::scalar::magnitude(scale.z);
            &&& finest == x || finest == y || finest == z
            &&& finest <= x && finest <= y && finest <= z
        }),
{
}

/// The deepest level is the measured one, but never above 0 or below 24; where the edge
/// or the scale is no normal number, or the scale is below zero, it is 18.
pub proof fn lemma_deepest_level(edge: u64, scale: u64, measured: i32)
    ensures
        ({
            let known = 1 <= crate::scalar::exponent_field(edge) <= 2046 && 1
                <= crate::scalar::exponent_field(scale) <= 2046 && scale as int
                / 0x8000_0000_0000_0000 == 0;
            let level = deepest_level(edge, scale, measured);
            &&& !known ==> level == 18
            &&& known && 0 <= measured <= 24 ==> level == measured
            &&& known && measured < 0 ==> level == 0
            &&& known && measured > 24 ==> level == 24
        }),
{
    crate::scalar::lemma_normal_number(edge);
    crate::scalar::lemma_normal_number(scale);
}

/// A step down goes to the octant on the upper side of the center along the axes along
/// which the point has at least the center's value, and its box is that part of the box.
pub proof fn lemma_step_down(node: VoxelNode, p: Position, center: Position)
    requires
        node.key.on_grid(),
        node.key.level <= 30,
        crate::geometry::has_numbers(p),
        crate::geometry::has_numbers(center),
    ensures
        ({
            let next = node.toward(p, center);
            let x: int = if crate::scalar::units(p.x) >= crate::scalar::units(center.x) { 1 } else { 0 };
            let y: int = if crate::scalar::units(p.y) >= crate::scalar::units(center.y) { 1 } else { 0 };
            let z: int = if crate::scalar::units(p.z) >= crate::scalar::units(center.z) { 1 } else { 0 };
            &&& next.key.level == node.key.level + 1
            &&& next.key.x == 2 * node.key.x + x
            &&& next.key.y == 2 * node.key.y + y
            &&& next.key.z == 2 * node.key.z + z
            &&& crate::geometry::part_of_box(node.bounds, center, x, y, z, next.bounds)
        }),
{
    let x: int = if crate::scalar::units(p.x) >= crate::scalar::units(center.x) { 1 } else { 0 };
    let y: int = if crate::scalar::units(p.y) >= crate::scalar::units(center.y) { 1 } else { 0 };
    let z: int = if crate::scalar::units(p.z) >= crate::scalar::units(center.z) { 1 } else { 0 };
    crate::geometry::lemma_direction_is_by_values(p, center);
    assert(crate::geometry::direction(p, center) == x + 2 * y + 4 * z);
    crate::key::lemma_octant_key_says_where(node.key, x, y, z);
    crate::geometry::lemma_octant_is_part_of_box(node.bounds, center, x, y, z);
}

} // verus!
