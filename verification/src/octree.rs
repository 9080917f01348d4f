//! The octree of the greedy strategy: a node takes points until it is full,
//! then its octants do.

use crate::geometry::{bounds_contains_point, split_bounds, Bounds, Position};
use crate::hierarchy::Entry;
use crate::key::VoxelKey;
use vstd::prelude::*;

verus! {

/// How a node is divided.
#[derive(Clone, Copy, Debug, PartialEq, Eq, Structural)]
pub struct Split {
    /// The place of the first of the eight octants among the nodes.
    pub first: usize,
    /// Where the node's box is cut.
    pub center: Position,
}

/// A node of the octree.
#[derive(Clone, Copy, Debug, PartialEq, Eq, Structural)]
pub struct OctreeNode {
    pub entry: Entry,
    pub bounds: Bounds,
    /// The division; `None` for a node without octants.
    pub split: Option<Split>,
}

impl OctreeNode {
    /// A node that holds no points and is not divided.
    pub open spec fn empty(key: VoxelKey, offset: u64, bounds: Bounds) -> OctreeNode {
        OctreeNode {
            entry: Entry { key, offset, byte_size: 0, point_count: 0 },
            bounds,
            split: None,
        }
    }

    /// Whether the node holds `max` points or more.
    pub open spec fn full(self, max: i32) -> bool {
        self.entry.point_count >= max
    }

    /// The node with one more point.
    pub open spec fn with_point(self) -> OctreeNode {
        OctreeNode {
            entry: Entry { point_count: (self.entry.point_count + 1) as i32, ..self.entry },
            ..self
        }
    }

    /// Whether the node holds `max_node_size` points or more.
    pub fn is_full(&self, max_node_size: i32) -> (res: bool)
        ensures
            res == self.full(max_node_size),
    {
        self.entry.point_count >= max_node_size
    }
}

/// An octree: its nodes, the root first, and how many points a node takes.
#[verifier::ext_equal]
pub struct OctreeView {
    pub nodes: Seq<OctreeNode>,
    pub max: i32,
}

impl OctreeView {
    /// Octant `dir` of node `i`.
    pub open spec fn octant_node(self, i: int, dir: int) -> OctreeNode {
        self.nodes[self.nodes[i].split->0.first + dir]
    }

    /// Node `i` is divided into eight later nodes, which are its octants, and
    /// it is full.
    pub open spec fn split_ok(self, i: int) -> bool {
        let node = self.nodes[i];
        &&& i < node.split->0.first
        &&& node.split->0.first + 8 <= self.nodes.len()
        &&& node.full(self.max)
        &&& node.entry.key.level < i32::MAX
        &&& forall|dir: int|
            0 <= dir < 8 ==> {
                let octant = #[trigger] self.octant_node(i, dir);
                &&& octant.entry.key == node.entry.key.octant_key(dir)
                &&& octant.bounds == crate::geometry::octant(
                    node.bounds,
                    node.split->0.center,
                    dir,
                )
            }
    }

    /// Whether node `j` is octant `dir` of node `i`.
    pub open spec fn is_octant(self, i: int, dir: int, j: int) -> bool {
        &&& 0 <= i < self.nodes.len()
        &&& 0 <= dir < 8
        &&& self.nodes[i].split is Some
        &&& self.nodes[i].split->0.first + dir == j
    }

    /// Whether node `j` is an octant of some node.
    pub open spec fn has_parent(self, j: int) -> bool {
        exists|i: int, dir: int| #[trigger] self.is_octant(i, dir, j)
    }

    /// The nodes form an octree, in which no node has more points than it takes, and
    /// a key belongs to one node, as long as the coordinates of keys do not wrap.
    pub open spec fn wf(self) -> bool {
        &&& self.max >= 1
        &&& self.nodes.len() > 0
        &&& self.nodes[0].entry.key == VoxelKey::root()
        &&& forall|i: int| 0 <= i < self.nodes.len() ==> (#[trigger] self.nodes[i]).entry.key.on_grid()
        &&& forall|i: int|
            0 <= i < self.nodes.len() ==> 0 <= (#[trigger] self.nodes[i]).entry.point_count <= self.max
        &&& forall|j: int| 1 <= j < self.nodes.len() ==> #[trigger] self.has_parent(j)
        &&& forall|i: int, j: int|
            0 <= i < j < self.nodes.len() && self.nodes[i].entry.key.level <= 31
                ==> #[trigger] self.nodes[i].entry.key != #[trigger] self.nodes[j].entry.key
        &&& forall|i: int|
            0 <= i < self.nodes.len() && (#[trigger] self.nodes[i]).split is Some ==> self.split_ok(i)
    }

    /// The last of the first `n` octants of node `i` that contains `p`; -1 where
    /// none does.
    pub open spec fn last_octant(self, i: int, n: int, p: Position) -> int
        decreases n,
    {
        if n <= 0 {
            -1
        } else if crate::geometry::contains(self.octant_node(i, n - 1).bounds, p) {
            n - 1
        } else {
            self.last_octant(i, n - 1, p)
        }
    }

    /// The node under node `i` that `p` comes to: from a full node it goes to
    /// the last octant that contains it, until a node is not full or not divided.
    pub open spec fn find(self, i: int, p: Position) -> int
        decreases self.nodes.len() - i,
    {
        let next = self.nodes[i].split->0.first + self.last_octant(i, 8, p);
        if self.nodes[i].full(self.max) && self.nodes[i].split is Some && i < next
            < self.nodes.len() {
            self.find(next, p)
        } else {
            i
        }
    }

    /// The octree with one more point in node `i`.
    pub open spec fn placed(self, i: int) -> OctreeView {
        OctreeView { nodes: self.nodes.update(i, self.nodes[i].with_point()), ..self }
    }

    /// The octree with node `i` divided at `center`.
    pub open spec fn divided(self, i: int, center: Position) -> OctreeView {
        let node = self.nodes[i];
        OctreeView {
            nodes: self.nodes.update(
                i,
                OctreeNode { split: Some(Split { first: self.nodes.len() as usize, center }), ..node },
            ) + Seq::new(
                8,
                |dir: int|
                    OctreeNode::empty(
                        node.entry.key.octant_key(dir),
                        0,
                        crate::geometry::octant(node.bounds, center, dir),
                    ),
            ),
            ..self
        }
    }
}

/// What became of a point.
#[derive(Debug)]
pub enum PlaceStep {
    /// It is in the node of `key`, which is now full or not.
    Placed { key: VoxelKey, full: bool },
    /// The node it comes to, that of `key`, is full and has to be divided first,
    /// at the center of `bounds`.
    Divide { node: usize, key: VoxelKey, bounds: Bounds },
    /// It is outside the octree.
    Outside,
}

/// The octree of the greedy strategy.
pub struct Octree {
    nodes: Vec<OctreeNode>,
    max_node_size: i32,
}

impl View for Octree {
    type V = OctreeView;

    closed spec fn view(&self) -> OctreeView {
        OctreeView { nodes: self.nodes@, max: self.max_node_size }
    }
}

impl Octree {
    /// An octree over `bounds` that holds no points.
    pub fn new(bounds: Bounds, offset: u64, max_node_size: i32) -> (res: Octree)
        requires
            max_node_size >= 1,
        ensures
            res@.wf(),
            res@ == (OctreeView {
                nodes: seq![OctreeNode::empty(VoxelKey::root(), offset, bounds)],
                max: max_node_size,
            }),
    {
        let mut nodes: Vec<OctreeNode> = Vec::new();
        nodes.push(
            OctreeNode {
                entry: Entry {
                    key: VoxelKey { level: 0, x: 0, y: 0, z: 0 },
                    offset,
                    byte_size: 0,
                    point_count: 0,
                },
                bounds,
                split: None,
            },
        );
        proof {
            vstd::arithmetic::power2::lemma2_to64();
        }
        Octree { nodes, max_node_size }
    }

    /// The nodes can be counted.
    pub proof fn lemma_nodes_fit(&self)
        ensures
            self@.nodes.len() <= usize::MAX,
    {
        let len = self.nodes.len();
        assert(self.nodes@.len() == len);
    }

    /// The box of the whole octree.
    pub fn root_bounds(&self) -> (res: Bounds)
        requires
            self@.wf(),
        ensures
            res == self@.nodes[0].bounds,
    {
        self.nodes[0].bounds
    }

    /// Puts a point into the first node that contains it and is not full, from
    /// the root on.
    pub fn place(&mut self, p: &Position) -> (step: PlaceStep)
        requires
            old(self)@.wf(),
        ensures
            final(self)@.wf(),
            ({
                let tree = old(self)@;
                let i = tree.find(0, *p);
                let node = tree.nodes[i];
                if !crate::geometry::contains(tree.nodes[0].bounds, *p) {
                    step is Outside && final(self)@ == tree
                } else if node.full(tree.max) {
                    &&& step == (PlaceStep::Divide {
                        node: i as usize,
                        key: node.entry.key,
                        bounds: node.bounds,
                    })
                    &&& 0 <= i < tree.nodes.len()
                    &&& node.split is None
                    &&& final(self)@ == tree
                } else {
                    &&& step == (PlaceStep::Placed {
                        key: node.entry.key,
                        full: node.with_point().full(tree.max),
                    })
                    &&& 0 <= i < tree.nodes.len()
                    &&& final(self)@ == tree.placed(i)
                }
            }),
    {
        if !bounds_contains_point(&self.nodes[0].bounds, p) {
            return PlaceStep::Outside;
        }
        let ghost tree = self@;
        let mut i: usize = 0;
        loop
            invariant
                self@ == tree,
                tree == old(self)@,
                tree.wf(),
                crate::geometry::contains(tree.nodes[0].bounds, *p),
                i < self.nodes@.len(),
                crate::geometry::contains(tree.nodes[i as int].bounds, *p),
                tree.find(0, *p) == tree.find(i as int, *p),
            decreases self.nodes@.len() - i,
        {
            let node: OctreeNode = self.nodes[i];
            if !node.is_full(self.max_node_size) {
                let grown = OctreeNode {
                    entry: Entry { point_count: node.entry.point_count + 1, ..node.entry },
                    ..node
                };
                self.nodes.set(i, grown);
                assert(self@ =~= tree.placed(i as int));
                proof {
                    lemma_placed_is_wf(tree, i as int);
                }
                return PlaceStep::Placed {
                    key: node.entry.key,
                    full: grown.is_full(self.max_node_size),
                };
            }
            match node.split {
                None => {
                    return PlaceStep::Divide { node: i, key: node.entry.key, bounds: node.bounds };
                },
                Some(split) => {
                    assert(tree.split_ok(i as int));
                    proof {
                        lemma_some_octant_contains(tree, i as int, *p);
                    }
                    let len: usize = self.nodes.len();
                    let mut dir: usize = 7;
                    while !bounds_contains_point(&self.nodes[split.first + dir].bounds, p)
                        invariant
                            self@ == tree,
                            i < tree.nodes.len(),
                            node == tree.nodes[i as int],
                            node.split == Some(split),
                            split.first + 8 <= len == tree.nodes.len(),
                            0 <= dir < 8,
                            tree.last_octant(i as int, 8, *p) >= 0,
                            tree.last_octant(i as int, 8, *p) == tree.last_octant(
                                i as int,
                                dir + 1,
                                *p,
                            ),
                        decreases dir,
                    {
                        assert(tree.octant_node(i as int, dir as int) == self.nodes@[split.first
                            + dir]);
                        assert(tree.last_octant(i as int, dir as int, *p) >= 0);
                        dir = dir - 1;
                    }
                    assert(tree.octant_node(i as int, dir as int) == self.nodes@[split.first + dir]);
                    i = split.first + dir;
                },
            }
        }
    }

    /// Divides node `node` at `center` into eight octants without points.
    pub fn split(&mut self, node: usize, center: &Position)
        requires
            old(self)@.wf(),
            node < old(self)@.nodes.len(),
            old(self)@.nodes[node as int].full(old(self)@.max),
            old(self)@.nodes[node as int].split is None,
            old(self)@.nodes[node as int].entry.key.level < i32::MAX,
        ensures
            final(self)@.wf(),
            final(self)@ == old(self)@.divided(node as int, *center),
    {
        let ghost tree = self@;
        let parent: OctreeNode = self.nodes[node];
        let first: usize = self.nodes.len();
        let keys: Vec<VoxelKey> = parent.entry.key.children();
        self.nodes.set(node, OctreeNode { split: Some(Split { first, center: *center }), ..parent });
        let mut dir: usize = 0;
        while dir < 8
            invariant
                0 <= dir <= 8,
                tree == old(self)@,
                node < tree.nodes.len(),
                parent == tree.nodes[node as int],
                first == tree.nodes.len(),
                self.max_node_size == tree.max,
                keys@ == Seq::new(8, |d: int| parent.entry.key.octant_key(d)),
                self.nodes@.len() == first + dir,
                forall|j: int|
                    0 <= j < first + dir ==> #[trigger] self.nodes@[j] == tree.divided(
                        node as int,
                        *center,
                    ).nodes[j],
            decreases 8 - dir,
        {
            self.nodes.push(
                OctreeNode {
                    entry: Entry { key: keys[dir], offset: 0, byte_size: 0, point_count: 0 },
                    bounds: split_bounds(&parent.bounds, center, dir as i32),
                    split: None,
                },
            );
            dir = dir + 1;
        }
        assert(self@ =~= tree.divided(node as int, *center));
        proof {
            lemma_divided_is_wf(tree, node as int, *center);
        }
    }
}

/// An octree with one more point in a node is an octree.
pub proof fn lemma_placed_is_wf(tree: OctreeView, i: int)
    requires
        tree.wf(),
        0 <= i < tree.nodes.len(),
        !tree.nodes[i].full(tree.max),
    ensures
        tree.placed(i).wf(),
{
    let after = tree.placed(i);
    assert forall|j: int| 1 <= j < after.nodes.len() implies #[trigger] after.has_parent(j) by {
        assert(j < tree.nodes.len() ==> tree.has_parent(j));
        let (q, dir) = choose|q: int, dir: int| #[trigger] tree.is_octant(q, dir, j);
        assert(after.is_octant(q, dir, j));
    }
    assert forall|j: int, k: int|
        0 <= j < k < after.nodes.len() && after.nodes[j].entry.key.level <= 31 implies #[trigger] after.nodes[j].entry.key
        != #[trigger] after.nodes[k].entry.key by {
        assert(tree.nodes[j].entry.key != tree.nodes[k].entry.key);
    }
    assert forall|j: int| 0 <= j < after.nodes.len() && (#[trigger] after.nodes[j]).split is Some implies after.split_ok(
        j,
    ) by {
        assert(tree.nodes[j].split is Some);
        assert(tree.split_ok(j));
        assert forall|dir: int| 0 <= dir < 8 implies {
            let octant = #[trigger] after.octant_node(j, dir);
            &&& octant.entry.key == after.nodes[j].entry.key.octant_key(dir)
            &&& octant.bounds == crate::geometry::octant(
                after.nodes[j].bounds,
                after.nodes[j].split->0.center,
                dir,
            )
        } by {
            assert(tree.octant_node(j, dir).entry.key == tree.nodes[j].entry.key.octant_key(dir));
        }
    }
}

/// An octree with one more node divided is an octree.
pub proof fn lemma_divided_is_wf(tree: OctreeView, i: int, center: Position)
    requires
        tree.wf(),
        0 <= i < tree.nodes.len(),
        tree.nodes.len() <= usize::MAX,
        tree.nodes[i].full(tree.max),
        tree.nodes[i].split is None,
        tree.nodes[i].entry.key.level < i32::MAX,
    ensures
        tree.divided(i, center).wf(),
{
    let after = tree.divided(i, center);
    let len = tree.nodes.len() as int;
    let key = tree.nodes[i].entry.key;
    assert forall|j: int| 0 <= j < after.nodes.len() implies (#[trigger] after.nodes[j]).entry.key.on_grid() by {
        if j >= len {
            crate::key::lemma_octant_is_on_grid(key, j - len);
        } else {
            assert(after.nodes[j].entry.key == tree.nodes[j].entry.key);
        }
    }
    assert forall|j: int| 1 <= j < after.nodes.len() implies #[trigger] after.has_parent(j) by {
        assert(j < tree.nodes.len() ==> tree.has_parent(j));
        if j >= len {
            assert(after.is_octant(i, j - len, j));
        } else {
            let (q, dir) = choose|q: int, dir: int| #[trigger] tree.is_octant(q, dir, j);
            assert(after.is_octant(q, dir, j));
        }
    }
    assert forall|j: int, k: int|
        0 <= j < k < after.nodes.len() && after.nodes[j].entry.key.level <= 31 implies #[trigger] after.nodes[j].entry.key
        != #[trigger] after.nodes[k].entry.key by {
        if j >= len {
            crate::key::lemma_octant_keys_differ(key, j - len, k - len);
        } else if k >= len {
            if after.nodes[j].entry.key == after.nodes[k].entry.key {
                assert(tree.nodes[j].entry.key == key.octant_key(k - len));
                assert(j != 0);
                assert(tree.has_parent(j));
                let (q, dir) = choose|q: int, dir: int| #[trigger] tree.is_octant(q, dir, j);
                assert(tree.split_ok(q));
                assert(tree.octant_node(q, dir).entry.key == tree.nodes[q].entry.key.octant_key(dir));
                crate::key::lemma_octant_has_one_parent(
                    key,
                    k - len,
                    tree.nodes[q].entry.key,
                    dir,
                );
                assert(tree.nodes[q].entry.key == tree.nodes[i].entry.key);
                assert(q == i);
            }
        } else {
            assert(tree.nodes[j].entry.key != tree.nodes[k].entry.key);
        }
    }
    assert forall|j: int| 0 <= j < after.nodes.len() && (#[trigger] after.nodes[j]).split is Some implies after.split_ok(
        j,
    ) by {
        if j != i {
            assert(j < tree.nodes.len());
            assert(tree.nodes[j].split is Some);
            assert(tree.split_ok(j));
        }
        assert forall|dir: int| 0 <= dir < 8 implies {
            let octant = #[trigger] after.octant_node(j, dir);
            &&& octant.entry.key == after.nodes[j].entry.key.octant_key(dir)
            &&& octant.bounds == crate::geometry::octant(
                after.nodes[j].bounds,
                after.nodes[j].split->0.center,
                dir,
            )
        } by {
            if j != i {
                assert(tree.octant_node(j, dir).entry.key == tree.nodes[j].entry.key.octant_key(dir));
            }
        }
    }
}

proof fn lemma_last_octant(tree: OctreeView, i: int, n: int, p: Position, dir: int)
    requires
        0 <= dir < n <= 8,
        crate::geometry::contains(tree.octant_node(i, dir).bounds, p),
    ensures
        dir <= tree.last_octant(i, n, p) < n,
        crate::geometry::contains(tree.octant_node(i, tree.last_octant(i, n, p)).bounds, p),
    decreases n,
{
    if !crate::geometry::contains(tree.octant_node(i, n - 1).bounds, p) {
        lemma_last_octant(tree, i, n - 1, p, dir);
    }
}

proof fn lemma_some_octant_contains(tree: OctreeView, i: int, p: Position)
    requires
        tree.wf(),
        0 <= i < tree.nodes.len(),
        tree.nodes[i].split is Some,
        crate::geometry::contains(tree.nodes[i].bounds, p),
    ensures
        0 <= tree.last_octant(i, 8, p) < 8,
        crate::geometry::contains(tree.octant_node(i, tree.last_octant(i, 8, p)).bounds, p),
{
    let node = tree.nodes[i];
    let center = node.split->0.center;
    let dir = crate::geometry::direction(p, center);
    assert(tree.split_ok(i));
    crate::geometry::lemma_octant_keeps_point(node.bounds, center, p);
    assert(tree.octant_node(i, dir).bounds == crate::geometry::octant(node.bounds, center, dir));
    lemma_last_octant(tree, i, 8, p, dir);
}

/// A point of the octree always comes to a node that contains it and that has
/// room or can be divided.
pub proof fn lemma_find_contains(tree: OctreeView, i: int, p: Position)
    requires
        tree.wf(),
        0 <= i < tree.nodes.len(),
        crate::geometry::contains(tree.nodes[i].bounds, p),
    ensures
        i <= tree.find(i, p) < tree.nodes.len(),
        crate::geometry::contains(tree.nodes[tree.find(i, p)].bounds, p),
        tree.nodes[tree.find(i, p)].full(tree.max) ==> tree.nodes[tree.find(i, p)].split is None,
    decreases tree.nodes.len() - i,
{
    if tree.nodes[i].full(tree.max) && tree.nodes[i].split is Some {
        assert(tree.split_ok(i));
        lemma_some_octant_contains(tree, i, p);
        lemma_find_contains(tree, tree.nodes[i].split->0.first + tree.last_octant(i, 8, p), p);
    }
}

proof fn lemma_last_octant_agrees(a: OctreeView, b: OctreeView, i: int, n: int, p: Position)
    requires
        n <= 8,
        forall|dir: int|
            0 <= dir < 8 ==> (#[trigger] a.octant_node(i, dir)).bounds == b.octant_node(i, dir).bounds,
    ensures
        a.last_octant(i, n, p) == b.last_octant(i, n, p),
    decreases n,
{
    if n > 0 {
        assert(a.octant_node(i, n - 1).bounds == b.octant_node(i, n - 1).bounds);
        lemma_last_octant_agrees(a, b, i, n - 1, p);
    }
}

proof fn lemma_division_keeps_path(tree: OctreeView, i: int, node: int, center: Position, p: Position)
    requires
        tree.wf(),
        0 <= i < tree.nodes.len() <= usize::MAX,
        crate::geometry::contains(tree.nodes[i].bounds, p),
        node == tree.find(i, p),
        tree.nodes[node].full(tree.max),
        tree.nodes[node].entry.key.level < i32::MAX,
    ensures
        tree.divided(node, center).find(i, p) == tree.divided(node, center).find(node, p),
    decreases tree.nodes.len() - i,
{
    lemma_find_contains(tree, i, p);
    if i != node {
        let after = tree.divided(node, center);
        let first = tree.nodes[i].split->0.first;
        assert(tree.split_ok(i));
        lemma_some_octant_contains(tree, i, p);
        assert forall|dir: int| 0 <= dir < 8 implies (#[trigger] tree.octant_node(i, dir)).bounds
            == after.octant_node(i, dir).bounds by {}
        lemma_last_octant_agrees(tree, after, i, 8, p);
        lemma_division_keeps_path(tree, first + tree.last_octant(i, 8, p), node, center, p);
    }
}

/// Dividing makes room: once the full node that a point comes to is divided,
/// wherever its center is, the point comes to one of the new octants, which
/// contains it and takes it. So placing a point divides at most one node.
pub proof fn lemma_division_makes_room(tree: OctreeView, center: Position, p: Position)
    requires
        tree.wf(),
        tree.nodes.len() <= usize::MAX,
        crate::geometry::contains(tree.nodes[0].bounds, p),
        tree.nodes[tree.find(0, p)].full(tree.max),
        tree.nodes[tree.find(0, p)].entry.key.level < i32::MAX,
    ensures
        ({
            let after = tree.divided(tree.find(0, p), center);
            let i = after.find(0, p);
            &&& tree.nodes.len() <= i < tree.nodes.len() + 8
            &&& crate::geometry::contains(after.nodes[i].bounds, p)
            &&& !after.nodes[i].full(after.max)
        }),
{
    let node = tree.find(0, p);
    let after = tree.divided(node, center);
    lemma_find_contains(tree, 0, p);
    lemma_divided_is_wf(tree, node, center);
    lemma_division_keeps_path(tree, 0, node, center, p);
    assert(after.split_ok(node));
    lemma_some_octant_contains(after, node, p);
    let next = tree.nodes.len() + after.last_octant(node, 8, p);
    assert(after.nodes[next].entry.point_count == 0);
    assert(after.find(node, p) == after.find(next, p));
}

/// The points that the nodes hold.
pub open spec fn points_of(nodes: Seq<OctreeNode>) -> int
    decreases nodes.len(),
{
    if nodes.len() == 0 {
        0
    } else {
        points_of(nodes.drop_last()) + nodes.last().entry.point_count
    }
}

proof fn lemma_points_of_update(nodes: Seq<OctreeNode>, i: int, node: OctreeNode)
    requires
        0 <= i < nodes.len(),
    ensures
        points_of(nodes.update(i, node)) == points_of(nodes) - nodes[i].entry.point_count
            + node.entry.point_count,
    decreases nodes.len(),
{
    let after = nodes.update(i, node);
    if i == nodes.len() - 1 {
        assert(after.drop_last() =~= nodes.drop_last());
    } else {
        assert(after.drop_last() =~= nodes.drop_last().update(i, node));
        lemma_points_of_update(nodes.drop_last(), i, node);
    }
}

proof fn lemma_points_of_empty_nodes(nodes: Seq<OctreeNode>, more: Seq<OctreeNode>)
    requires
        forall|i: int| 0 <= i < more.len() ==> (#[trigger] more[i]).entry.point_count == 0,
    ensures
        points_of(nodes + more) == points_of(nodes),
    decreases more.len(),
{
    if more.len() == 0 {
        assert(nodes + more =~= nodes);
    } else {
        assert((nodes + more).drop_last() =~= nodes + more.drop_last());
        lemma_points_of_empty_nodes(nodes, more.drop_last());
    }
}

/// Every point is counted in one node, once: placing a point adds one to what
/// the nodes hold together, and dividing a node changes nothing of it.
pub proof fn lemma_points_are_counted_once(tree: OctreeView, i: int, center: Position)
    requires
        tree.wf(),
        0 <= i < tree.nodes.len(),
    ensures
        !tree.nodes[i].full(tree.max) ==> points_of(tree.placed(i).nodes) == points_of(tree.nodes) + 1,
        points_of(tree.divided(i, center).nodes) == points_of(tree.nodes),
{
    let node = tree.nodes[i];
    let split = OctreeNode {
        split: Some(Split { first: tree.nodes.len() as usize, center }),
        ..node
    };
    lemma_points_of_update(tree.nodes, i, node.with_point());
    lemma_points_of_update(tree.nodes, i, split);
    let more = Seq::new(
        8,
        |dir: int|
            OctreeNode::empty(
                node.entry.key.octant_key(dir),
                0,
                crate::geometry::octant(node.bounds, center, dir),
            ),
    );
    lemma_points_of_empty_nodes(tree.nodes.update(i, split), more);
}

/// A key stands for one node: as long as the coordinates of keys do not wrap,
/// two nodes with the same key are the same node.
pub proof fn lemma_key_stands_for_one_node(tree: OctreeView, i: int, j: int)
    requires
        tree.wf(),
        0 <= i < tree.nodes.len(),
        0 <= j < tree.nodes.len(),
        tree.nodes[i].entry.key.level <= 31,
        tree.nodes[i].entry.key == tree.nodes[j].entry.key,
    ensures
        i == j,
{
    if i < j {
        assert(tree.nodes[i].entry.key != tree.nodes[j].entry.key);
    }
    if j < i {
        assert(tree.nodes[j].entry.key != tree.nodes[i].entry.key);
    }
}

/// Only the root is on the topmost level.
pub proof fn lemma_octants_are_below_the_root(tree: OctreeView, j: int)
    requires
        tree.wf(),
        0 <= j < tree.nodes.len(),
    ensures
        tree.nodes[j].entry.key.level == 0 <==> j == 0,
        tree.nodes[j].entry.key == VoxelKey::root() <==> j == 0,
        j != 0 ==> tree.nodes[0].full(tree.max),
    decreases j,
{
    if j > 0 {
        assert(tree.has_parent(j));
        let (i, dir) = choose|i: int, dir: int| #[trigger] tree.is_octant(i, dir, j);
        assert(tree.split_ok(i));
        assert(tree.octant_node(i, dir).entry.key == tree.nodes[i].entry.key.octant_key(dir));
        assert(tree.nodes[i].entry.key.on_grid());
        lemma_octants_are_below_the_root(tree, i);
    }
}

/// A point comes to one of the nodes.
pub proof fn lemma_find_is_a_node(tree: OctreeView, i: int, p: Position)
    requires
        0 <= i < tree.nodes.len(),
    ensures
        i <= tree.find(i, p) < tree.nodes.len(),
    decreases tree.nodes.len() - i,
{
    let next = tree.nodes[i].split->0.first + tree.last_octant(i, 8, p);
    if tree.nodes[i].full(tree.max) && tree.nodes[i].split is Some && i < next < tree.nodes.len() {
        lemma_find_is_a_node(tree, next, p);
    }
}

/// Both strategies choose the same octant: the last octant that contains a point is the
/// one on the upper side of the center along the axes along which the point has at least
/// the center's value.
pub proof fn lemma_octant_is_chosen_by_values(tree: OctreeView, i: int, p: Position)
    requires
        tree.wf(),
        0 <= i < tree.nodes.len(),
        tree.nodes[i].split is Some,
        crate::geometry::contains(tree.nodes[i].bounds, p),
        crate::geometry::has_numbers(p),
        crate::geometry::has_numbers(tree.nodes[i].split->0.center),
    ensures
        ({
            let center = tree.nodes[i].split->0.center;
            let dir = tree.last_octant(i, 8, p);
            &&& 0 <= dir < 8
            &&& dir % 2 == 1 <==> crate::scalar::units(p.x) >= crate::scalar::units(center.x)
            &&& dir / 2 % 2 == 1 <==> crate::scalar::units(p.y) >= crate::scalar::units(center.y)
            &&& dir / 4 == 1 <==> crate::scalar::units(p.z) >= crate::scalar::units(center.z)
        }),
{
    let node = tree.nodes[i];
    let center = node.split->0.center;
    let chosen = crate::geometry::direction(p, center);
    assert(tree.split_ok(i));
    crate::geometry::lemma_direction_is_by_values(p, center);
    crate::geometry::lemma_octant_keeps_point(node.bounds, center, p);
    assert forall|dir: int| chosen < dir < 8 implies !crate::geometry::contains(
        (#[trigger] tree.octant_node(i, dir)).bounds,
        p,
    ) by {
        assert(tree.octant_node(i, dir).bounds == crate::geometry::octant(
            node.bounds,
            center,
            dir,
        ));
        assert((dir % 2 == 1 && chosen % 2 == 0) || (dir / 2 % 2 == 1 && chosen / 2 % 2 == 0) || (
        dir / 4 % 2 == 1 && chosen / 4 == 0));
    }
    assert(tree.octant_node(i, chosen).bounds == crate::geometry::octant(
        node.bounds,
        center,
        chosen,
    ));
    lemma_last_octant_from(tree, i, chosen, 8, p);
}

proof fn lemma_last_octant_from(tree: OctreeView, i: int, dir: int, n: int, p: Position)
    requires
        0 <= dir < n <= 8,
        crate::geometry::contains(tree.octant_node(i, dir).bounds, p),
        forall|other: int|
            dir < other < 8 ==> !crate::geometry::contains(
                (#[trigger] tree.octant_node(i, other)).bounds,
                p,
            ),
    ensures
        tree.last_octant(i, n, p) == dir,
    decreases n,
{
    if dir < n - 1 {
        lemma_last_octant_from(tree, i, dir, n - 1, p);
    }
}

/// A point that is placed counts in one node and in no other, and changes nothing else.
/// A node is full with as many points as it takes.
pub proof fn lemma_placing_counts_one_point(tree: OctreeView, i: int, j: int)
    requires
        tree.wf(),
        0 <= i < tree.nodes.len(),
        0 <= j < tree.nodes.len(),
        tree.nodes[i].entry.point_count < tree.max,
    ensures
        ({
            let before = tree.nodes[j];
            let after = tree.placed(i).nodes[j];
            &&& tree.placed(i).nodes.len() == tree.nodes.len()
            &&& tree.placed(i).max == tree.max
            &&& after.entry.point_count == before.entry.point_count + (if i == j { 1int } else { 0 })
            &&& after.entry.key == before.entry.key
            &&& after.bounds == before.bounds
            &&& after.split == before.split
            &&& after.full(tree.max) <==> after.entry.point_count == tree.max
        }),
{
}

/// Points fill the octree from the top: a node below the root is an octant of a node
/// that has as many points as it takes.
pub proof fn lemma_nodes_fill_from_the_top(tree: OctreeView, j: int)
    requires
        tree.wf(),
        1 <= j < tree.nodes.len(),
    ensures
        exists|i: int, dir: int| #[trigger]
            tree.is_octant(i, dir, j) && tree.nodes[i].entry.point_count == tree.max
                && tree.nodes[j].entry.key == tree.nodes[i].entry.key.octant_key(dir),
{
    assert(tree.has_parent(j));
    let (i, dir) = choose|i: int, dir: int| #[trigger] tree.is_octant(i, dir, j);
    assert(tree.split_ok(i));
    assert(tree.octant_node(i, dir).entry.key == tree.nodes[i].entry.key.octant_key(dir));
    assert(tree.nodes[i].entry.point_count <= tree.max);
}

/// A point comes to a node that has room, or to a full one without octants.
pub proof fn lemma_point_comes_to_room(tree: OctreeView, p: Position)
    requires
        tree.wf(),
        crate::geometry::contains(tree.nodes[0].bounds, p),
    ensures
        ({
            let node = tree.nodes[tree.find(0, p)];
            &&& node.entry.point_count < tree.max || node.split is None
            &&& crate::geometry::contains(node.bounds, p)
        }),
{
    lemma_find_contains(tree, 0, p);
}

} // verus!
