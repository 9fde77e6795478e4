use vstd::prelude::*;

verus! {

/// Edge length of a chunk, in cells.
pub const CHUNK_SIZE: usize = 32;

/// Number of cells in a chunk.
pub const BLOCKS_PER_CHUNK: usize = 32768;

/// Position of the cell `(x, y, z)` in a chunk's flat cell array.
pub open spec fn cell_index(x: int, y: int, z: int) -> int {
    y * 1024 + x * 32 + z
}

/// Linearises an in-chunk coordinate (`y`, then `x`, then `z` as the fastest axis).
pub fn xyz_to_index(x: usize, y: usize, z: usize) -> (r: usize)
    requires
        x < 32,
        y < 32,
        z < 32,
    ensures
        r == cell_index(x as int, y as int, z as int),
        r < BLOCKS_PER_CHUNK,
{
    1024 * y + 32 * x + z
}

} // verus!

verus! {

/// A point of the integer grid: a cell of the world, or a chunk's position.
#[derive(Debug, Clone, Copy, PartialEq, Eq, Hash, Structural)]
pub struct IVec3 {
    pub x: i32,
    pub y: i32,
    pub z: i32,
}

pub fn ivec3(x: i32, y: i32, z: i32) -> (r: IVec3)
    ensures
        r == (IVec3 { x, y, z }),
{
    IVec3 { x, y, z }
}

/// The six axis directions. North is +z, east is +x, up is +y.
#[derive(Debug, Clone, Copy, PartialEq, Eq, Hash, Structural)]
pub enum Direction {
    Up,
    Down,
    North,
    South,
    East,
    West,
}

/// The unit step of a direction, as `(dx, dy, dz)`.
pub open spec fn step_of(d: Direction) -> (int, int, int) {
    match d {
        Direction::Up => (0, 1, 0),
        Direction::Down => (0, -1, 0),
        Direction::North => (0, 0, 1),
        Direction::South => (0, 0, -1),
        Direction::East => (1, 0, 0),
        Direction::West => (-1, 0, 0),
    }
}

pub open spec fn opposite_of(d: Direction) -> Direction {
    match d {
        Direction::Up => Direction::Down,
        Direction::Down => Direction::Up,
        Direction::North => Direction::South,
        Direction::South => Direction::North,
        Direction::East => Direction::West,
        Direction::West => Direction::East,
    }
}

impl Direction {
    /// The direction pointing the other way.
    pub fn opposite(self) -> (r: Direction)
        ensures
            r == opposite_of(self),
    {
        match self {
            Direction::Up => Direction::Down,
            Direction::Down => Direction::Up,
            Direction::North => Direction::South,
            Direction::South => Direction::North,
            Direction::East => Direction::West,
            Direction::West => Direction::East,
        }
    }
}

/// Whether `p` moved one step in `d` still fits in `i32` on every axis.
pub open spec fn can_step(p: IVec3, d: Direction) -> bool {
    let s = step_of(d);
    &&& i32::MIN <= p.x + s.0 <= i32::MAX
    &&& i32::MIN <= p.y + s.1 <= i32::MAX
    &&& i32::MIN <= p.z + s.2 <= i32::MAX
}

pub open spec fn stepped(p: IVec3, d: Direction) -> IVec3 {
    let s = step_of(d);
    IVec3 { x: (p.x + s.0) as i32, y: (p.y + s.1) as i32, z: (p.z + s.2) as i32 }
}

impl IVec3 {
    /// This point moved one step in direction `d`.
    pub fn offset(&self, d: Direction) -> (r: IVec3)
        requires
            can_step(*self, d),
        ensures
            r == stepped(*self, d),
    {
        match d {
            Direction::Up => self.up(),
            Direction::Down => self.down(),
            Direction::North => self.north(),
            Direction::South => self.south(),
            Direction::East => self.east(),
            Direction::West => self.west(),
        }
    }

    pub fn up(&self) -> (r: IVec3)
        requires
            can_step(*self, Direction::Up),
        ensures
            r == stepped(*self, Direction::Up),
    {
        IVec3 { x: self.x, y: self.y + 1, z: self.z }
    }

    pub fn down(&self) -> (r: IVec3)
        requires
            can_step(*self, Direction::Down),
        ensures
            r == stepped(*self, Direction::Down),
    {
        IVec3 { x: self.x, y: self.y - 1, z: self.z }
    }

    pub fn north(&self) -> (r: IVec3)
        requires
            can_step(*self, Direction::North),
        ensures
            r == stepped(*self, Direction::North),
    {
        IVec3 { x: self.x, y: self.y, z: self.z + 1 }
    }

    pub fn south(&self) -> (r: IVec3)
        requires
            can_step(*self, Direction::South),
        ensures
            r == stepped(*self, Direction::South),
    {
        IVec3 { x: self.x, y: self.y, z: self.z - 1 }
    }

    pub fn east(&self) -> (r: IVec3)
        requires
            can_step(*self, Direction::East),
        ensures
            r == stepped(*self, Direction::East),
    {
        IVec3 { x: self.x + 1, y: self.y, z: self.z }
    }

    pub fn west(&self) -> (r: IVec3)
        requires
            can_step(*self, Direction::West),
        ensures
            r == stepped(*self, Direction::West),
    {
        IVec3 { x: self.x - 1, y: self.y, z: self.z }
    }
}

/// `floor(v / 32)`; `int` division with a positive divisor rounds down.
fn floor_div32(v: i32) -> (r: i32)
    ensures
        r == v as int / 32,
{
    if v >= 0 {
        v / 32
    } else {
        let a: i32 = -(v + 1);
        let q: i32 = a / 32;
        proof {
            let rem = a as int % 32;
            assert(a as int == 32 * q + rem && 0 <= rem < 32) by (nonlinear_arith)
                requires a >= 0, q as int == a as int / 32, rem == a as int % 32;
            assert(v as int == 32 * (-q - 1) + (31 - rem));
            vstd::arithmetic::div_mod::lemma_fundamental_div_mod_converse(
                v as int, 32, -q - 1, 31 - rem);
        }
        -q - 1
    }
}

/// The chunk that holds the world cell `v` on one axis.
pub open spec fn chunk_coord(v: int) -> int {
    v / 32
}

/// The position of the world cell `v` inside its chunk, on one axis.
pub open spec fn local_coord(v: int) -> int {
    v % 32
}

/// The chunk that holds the world cell `pos`: `floor(pos / 32)` on each axis.
pub fn pos_to_chunk_pos(pos: IVec3) -> (r: IVec3)
    ensures
        r.x == chunk_coord(pos.x as int),
        r.y == chunk_coord(pos.y as int),
        r.z == chunk_coord(pos.z as int),
{
    IVec3 { x: floor_div32(pos.x), y: floor_div32(pos.y), z: floor_div32(pos.z) }
}

/// The position of the world cell `pos` inside its chunk: `pos - 32 * chunk` on each axis.
pub fn pos_to_chunk_local(pos: IVec3) -> (r: IVec3)
    ensures
        r.x == local_coord(pos.x as int),
        r.y == local_coord(pos.y as int),
        r.z == local_coord(pos.z as int),
        0 <= r.x < 32,
        0 <= r.y < 32,
        0 <= r.z < 32,
{
    let c = pos_to_chunk_pos(pos);
    proof {
        vstd::arithmetic::div_mod::lemma_fundamental_div_mod(pos.x as int, 32);
        vstd::arithmetic::div_mod::lemma_fundamental_div_mod(pos.y as int, 32);
        vstd::arithmetic::div_mod::lemma_fundamental_div_mod(pos.z as int, 32);
    }
    IVec3 { x: pos.x - 32 * c.x, y: pos.y - 32 * c.y, z: pos.z - 32 * c.z }
}

/// The world cell at the low corner of chunk `pos`.
pub fn chunk_pos_to_world_pos(pos: IVec3) -> (r: IVec3)
    requires
        i32::MIN <= 32 * pos.x <= i32::MAX,
        i32::MIN <= 32 * pos.y <= i32::MAX,
        i32::MIN <= 32 * pos.z <= i32::MAX,
    ensures
        r.x == 32 * pos.x,
        r.y == 32 * pos.y,
        r.z == 32 * pos.z,
{
    IVec3 { x: 32 * pos.x, y: 32 * pos.y, z: 32 * pos.z }
}

/// The in-chunk coordinate `(x, y, z)` of cell `i`.
pub open spec fn index_xyz(i: int) -> (int, int, int) {
    ((i / 32) % 32, i / 1024, i % 32)
}

/// Inverse of [`xyz_to_index`].
pub fn index_to_xyz(i: usize) -> (r: (usize, usize, usize))
    requires
        i < BLOCKS_PER_CHUNK,
    ensures
        r.0 == index_xyz(i as int).0,
        r.1 == index_xyz(i as int).1,
        r.2 == index_xyz(i as int).2,
        r.0 < 32 && r.1 < 32 && r.2 < 32,
        cell_index(r.0 as int, r.1 as int, r.2 as int) == i,
{
    let x = (i / 32) % 32;
    let y = i / 1024;
    let z = i % 32;
    assert(y * 1024 + x * 32 + z == i && y < 32) by (nonlinear_arith)
        requires x == (i / 32) % 32, y == i / 1024, z == i % 32, i < 32768;
    (x, y, z)
}

} // verus!
