//! Keys of octree nodes.

use vstd::prelude::*;

verus! {

/// The key of an octree node: its level and its place on that level's grid.
#[derive(Clone, Copy, Debug, PartialEq, Eq, Structural)]
pub struct VoxelKey {
    pub level: i32,
    pub x: i32,
    pub y: i32,
    pub z: i32,
}

/// `v` brought into the range of `i32` by dropping what does not fit in 32 bits,
/// for a `v` that is at most one bit too wide.
pub open spec fn wrapped(v: int) -> int {
    if v > i32::MAX {
        v - 0x1_0000_0000
    } else if v < i32::MIN {
        v + 0x1_0000_0000
    } else {
        v
    }
}

/// The grid coordinate of the lower or upper half of cell `v`.
pub open spec fn half(v: i32, upper: bool) -> i32 {
    wrapped(2 * v + if upper { 1int } else { 0 }) as i32
}

/// The grid coordinate, one level up, of the cell that has cell `v`.
pub open spec fn halved(v: i32) -> i32 {
    if v < 0 {
        0
    } else {
        (v / 2) as i32
    }
}

/// `v` counted from the lowest `i32`.
pub open spec fn biased(v: i32) -> int {
    v - i32::MIN
}

impl VoxelKey {
    /// The key of the whole octree.
    pub open spec fn root() -> VoxelKey {
        VoxelKey { level: 0, x: 0, y: 0, z: 0 }
    }

    /// The key of octant `dir` of this node.
    pub open spec fn octant_key(self, dir: int) -> VoxelKey {
        VoxelKey {
            level: (self.level + 1) as i32,
            x: half(self.x, crate::geometry::upper_x(dir)),
            y: half(self.y, crate::geometry::upper_y(dir)),
            z: half(self.z, crate::geometry::upper_z(dir)),
        }
    }

    /// Whether the node is on its level's grid, as far as `i32` can tell: on
    /// deeper levels the coordinates wrap.
    pub open spec fn on_grid(self) -> bool {
        let cells = vstd::arithmetic::power2::pow2(self.level as nat);
        &&& self.level >= 0
        &&& self.level <= 31 ==> 0 <= self.x < cells && 0 <= self.y < cells && 0 <= self.z < cells
    }

    /// The key of the node that this node is an octant of, on the levels where the
    /// coordinates do not wrap.
    pub open spec fn parent(self) -> VoxelKey {
        VoxelKey {
            level: (self.level - 1) as i32,
            x: halved(self.x),
            y: halved(self.y),
            z: halved(self.z),
        }
    }

    /// The key as one number; no two keys share one.
    pub open spec fn code(self) -> u128 {
        (((biased(self.level) * 0x1_0000_0000 + biased(self.x)) * 0x1_0000_0000 + biased(self.y))
            * 0x1_0000_0000 + biased(self.z)) as u128
    }

    /// The key with the given number.
    pub open spec fn of_code(code: u128) -> VoxelKey {
        VoxelKey {
            level: (code as int / 0x1_0000_0000 / 0x1_0000_0000 / 0x1_0000_0000 + i32::MIN) as i32,
            x: (code as int / 0x1_0000_0000 / 0x1_0000_0000 % 0x1_0000_0000 + i32::MIN) as i32,
            y: (code as int / 0x1_0000_0000 % 0x1_0000_0000 + i32::MIN) as i32,
            z: (code as int % 0x1_0000_0000 + i32::MIN) as i32,
        }
    }

    /// The key of octant `dir` of this node: bit 0 of `dir` selects the upper
    /// x, bit 1 the upper y, bit 2 the upper z.
    pub fn child(&self, dir: i32) -> (res: VoxelKey)
        requires
            0 <= dir < 8,
            self.level < i32::MAX,
        ensures
            res == self.octant_key(dir as int),
            res.level == self.level + 1,
            -0x4000_0000 <= self.x < 0x4000_0000 ==> res.x == 2 * self.x + dir % 2,
            -0x4000_0000 <= self.y < 0x4000_0000 ==> res.y == 2 * self.y + dir / 2 % 2,
            -0x4000_0000 <= self.z < 0x4000_0000 ==> res.z == 2 * self.z + dir / 4 % 2,
    {
        VoxelKey {
            level: self.level + 1,
            x: half_of(self.x, dir % 2 == 1),
            y: half_of(self.y, (dir / 2) % 2 == 1),
            z: half_of(self.z, (dir / 4) % 2 == 1),
        }
    }

    /// The key of the node that this node is an octant of.
    pub fn enclosing(&self) -> (res: VoxelKey)
        requires
            self.level > i32::MIN,
        ensures
            res == self.parent(),
    {
        VoxelKey {
            level: self.level - 1,
            x: half_up(self.x),
            y: half_up(self.y),
            z: half_up(self.z),
        }
    }

    /// The keys of the eight octants of this node, by direction.
    pub fn children(&self) -> (res: Vec<VoxelKey>)
        requires
            self.level < i32::MAX,
        ensures
            res@ == Seq::new(8, |dir: int| self.octant_key(dir)),
    {
        let mut res: Vec<VoxelKey> = Vec::new();
        let mut dir: i32 = 0;
        while dir < 8
            invariant
                0 <= dir <= 8,
                self.level < i32::MAX,
                res@ == Seq::new(dir as nat, |d: int| self.octant_key(d)),
            decreases 8 - dir,
        {
            res.push(self.child(dir));
            dir = dir + 1;
        }
        res
    }

    /// The key as one number.
    pub fn to_code(&self) -> (res: u128)
        ensures
            res == self.code(),
    {
        let level: u128 = bias(self.level);
        let x: u128 = bias(self.x);
        let y: u128 = bias(self.y);
        let z: u128 = bias(self.z);
        ((level * 0x1_0000_0000 + x) * 0x1_0000_0000 + y) * 0x1_0000_0000 + z
    }

    /// The key with the given number.
    pub fn from_code(code: u128) -> (res: VoxelKey)
        ensures
            res == VoxelKey::of_code(code),
    {
        VoxelKey {
            level: unbias(code / 0x1_0000_0000 / 0x1_0000_0000 / 0x1_0000_0000),
            x: unbias(code / 0x1_0000_0000 / 0x1_0000_0000 % 0x1_0000_0000),
            y: unbias(code / 0x1_0000_0000 % 0x1_0000_0000),
            z: unbias(code % 0x1_0000_0000),
        }
    }
}

fn half_of(v: i32, upper: bool) -> (res: i32)
    ensures
        res == half(v, upper),
{
    let bit: i64 = if upper { 1 } else { 0 };
    let wide: i64 = 2 * (v as i64) + bit;
    if wide > 0x7fff_ffff {
        (wide - 0x1_0000_0000) as i32
    } else if wide < -0x8000_0000 {
        (wide + 0x1_0000_0000) as i32
    } else {
        wide as i32
    }
}

fn half_up(v: i32) -> (res: i32)
    ensures
        res == halved(v),
{
    if v < 0 {
        0
    } else {
        v / 2
    }
}

fn bias(v: i32) -> (res: u128)
    ensures
        res == biased(v),
        res < 0x1_0000_0000,
{
    (v as i64 + 0x8000_0000) as u128
}

fn unbias(v: u128) -> (res: i32)
    requires
        v < 0x1_0000_0000,
    ensures
        res == v + i32::MIN,
{
    (v as i64 - 0x8000_0000) as i32
}

/// A key and its number determine each other.
pub proof fn lemma_code_is_one_to_one(key: VoxelKey, code: u128)
    ensures
        VoxelKey::of_code(key.code()) == key,
        VoxelKey::of_code(code).code() == code,
{
    let word: int = 0x1_0000_0000;
    let l = biased(key.level);
    let lx = l * word + biased(key.x);
    let lxy = lx * word + biased(key.y);
    let all = lxy * word + biased(key.z);
    assert(all / word == lxy && all % word == biased(key.z));
    assert(lxy / word == lx && lxy % word == biased(key.y));
    assert(lx / word == l && lx % word == biased(key.x));
    let c1 = code as int / word;
    let c2 = c1 / word;
    let c3 = c2 / word;
    assert(code == c1 * word + code as int % word);
    assert(c1 == c2 * word + c1 % word);
    assert(c2 == c3 * word + c2 % word);
    assert(c3 < word);
}

/// The eight octants of a node have eight different keys, none of them the
/// node's own.
pub proof fn lemma_octant_keys_differ(key: VoxelKey, a: int, b: int)
    requires
        key.level < i32::MAX,
        0 <= a < 8,
        0 <= b < 8,
    ensures
        key.octant_key(a) != key,
        a != b ==> key.octant_key(a) != key.octant_key(b),
{
}

proof fn lemma_grid_doubles(level: nat)
    requires
        level <= 30,
    ensures
        vstd::arithmetic::power2::pow2(level + 1) == 2 * vstd::arithmetic::power2::pow2(level),
        vstd::arithmetic::power2::pow2(level) <= 0x4000_0000,
{
    vstd::arithmetic::power2::lemma_pow2_unfold(level + 1);
    vstd::arithmetic::power2::lemma2_to64();
    if level < 30 {
        vstd::arithmetic::power2::lemma_pow2_strictly_increases(level, 30);
    }
}

/// A node is the parent of its octants.
pub proof fn lemma_parent_of_octant(key: VoxelKey, dir: int)
    requires
        key.on_grid(),
        key.level <= 30,
        0 <= dir < 8,
    ensures
        key.octant_key(dir).parent() == key,
{
    lemma_grid_doubles(key.level as nat);
}

/// A node below the root is an octant of its parent.
pub proof fn lemma_octant_of_parent(key: VoxelKey) -> (dir: int)
    requires
        key.on_grid(),
        1 <= key.level <= 31,
    ensures
        0 <= dir < 8,
        key == key.parent().octant_key(dir),
{
    lemma_grid_doubles((key.level - 1) as nat);
    let dir = key.x as int % 2 + 2 * (key.y as int % 2) + 4 * (key.z as int % 2);
    assert(crate::geometry::upper_x(dir) == (key.x as int % 2 == 1));
    assert(crate::geometry::upper_y(dir) == (key.y as int % 2 == 1));
    assert(crate::geometry::upper_z(dir) == (key.z as int % 2 == 1));
    dir
}

/// The topmost level has one node.
pub proof fn lemma_topmost_node_is_the_root(key: VoxelKey)
    requires
        key.on_grid(),
        key.level == 0,
    ensures
        key == VoxelKey::root(),
{
    vstd::arithmetic::power2::lemma2_to64();
}

/// Of two keys, the one on the deeper level has the greater number.
pub proof fn lemma_deeper_key_has_greater_code(a: VoxelKey, b: VoxelKey)
    requires
        a.level > b.level,
    ensures
        a.code() > b.code(),
{
}

/// The octants of a node on the grid are on the grid of the next level.
pub proof fn lemma_octant_is_on_grid(key: VoxelKey, dir: int)
    requires
        key.on_grid(),
        key.level < i32::MAX,
        0 <= dir < 8,
    ensures
        key.octant_key(dir).on_grid(),
{
    if key.level <= 30 {
        lemma_grid_doubles(key.level as nat);
    }
}

/// A node is the octant of one node only, in one direction.
pub proof fn lemma_octant_has_one_parent(a: VoxelKey, a_dir: int, b: VoxelKey, b_dir: int)
    requires
        a.on_grid(),
        b.on_grid(),
        0 <= a_dir < 8,
        0 <= b_dir < 8,
        a.level <= 30,
        b.level < i32::MAX,
        a.octant_key(a_dir) == b.octant_key(b_dir),
    ensures
        a == b,
        a_dir == b_dir,
{
    lemma_grid_doubles(a.level as nat);
}

/// A key says where the node is: an octant is one level deeper, and along each axis its
/// coordinate is twice that of the node, and one more where the octant is on the upper
/// side. The octant with the number `dir` is on the upper side along x, y and z where
/// the lowest, the second and the third bit of `dir` is set.
pub proof fn lemma_octant_key_says_where(key: VoxelKey, x: int, y: int, z: int)
    requires
        key.on_grid(),
        key.level <= 30,
        0 <= x <= 1,
        0 <= y <= 1,
        0 <= z <= 1,
    ensures
        ({
            let octant = key.octant_key(x + 2 * y + 4 * z);
            &&& octant.level == key.level + 1
            &&& octant.x == 2 * key.x + x
            &&& octant.y == 2 * key.y + y
            &&& octant.z == 2 * key.z + z
        }),
{
    lemma_grid_doubles(key.level as nat);
}

/// The parent of a node is one level up, at half its coordinates.
pub proof fn lemma_parent_key_says_where(key: VoxelKey)
    requires
        key.level > i32::MIN,
        key.x >= 0,
        key.y >= 0,
        key.z >= 0,
    ensures
        key.parent().level == key.level - 1,
        2 * key.parent().x <= key.x <= 2 * key.parent().x + 1,
        2 * key.parent().y <= key.y <= 2 * key.parent().y + 1,
        2 * key.parent().z <= key.z <= 2 * key.parent().z + 1,
{
}

/// The root is the one node of the topmost level, and each level's grid has as many
/// cells along an axis as the number of halvings gives.
pub proof fn lemma_root_and_grids(key: VoxelKey, cells: nat)
    requires
        cells == vstd::arithmetic::power2::pow2(key.level as nat),
        0 <= key.level <= 31,
    ensures
        VoxelKey::root().level == 0 && VoxelKey::root().x == 0 && VoxelKey::root().y == 0
            && VoxelKey::root().z == 0,
        key.on_grid() <==> 0 <= key.x < cells && 0 <= key.y < cells && 0 <= key.z < cells,
{
}

} // verus!
