use vstd::prelude::*;
use crate::block_state::{BlockState, BlockStateView, air_id};
use crate::chunk::ChunkData;
use crate::errors::BlockModelError;
use crate::pos::{Direction, opposite_of, cell_index, index_xyz, xyz_to_index, index_to_xyz, BLOCKS_PER_CHUNK};

verus! {

/// How a face's vertices form triangles.
#[derive(Debug, Clone, Copy, PartialEq, Eq, Structural)]
pub enum FaceType {
    Quad,
    Triangle,
}

/// One face of a block model, without its geometry: how many vertices it has, its
/// triangle indices, its texture layer, and the side whose neighbour may hide it.
#[derive(Debug)]
pub struct FaceMinimal {
    vertex_count: u32,
    indices: Vec<u32>,
    texture_index: u32,
    cull_mode: Option<Direction>,
}

/// The triangle indices of a face of `n` quads: quad `k` is the two triangles
/// `(4k, 4k+1, 4k+2)` and `(4k, 4k+2, 4k+3)`.
pub open spec fn quad_indices(n: nat) -> Seq<u32>
    decreases n,
{
    if n == 0 {
        seq![]
    } else {
        let b = (4 * (n - 1)) as u32;
        quad_indices((n - 1) as nat) + seq![b, (b + 1) as u32, (b + 2) as u32, b, (b + 2) as u32, (b + 3) as u32]
    }
}

impl FaceMinimal {
    #[verifier::type_invariant]
    spec fn inv(&self) -> bool {
        forall|j: int| 0 <= j < self.indices@.len() ==> #[trigger] self.indices@[j] < self.vertex_count
    }

    pub closed spec fn vertices_spec(&self) -> nat {
        self.vertex_count as nat
    }

    pub closed spec fn indices_spec(&self) -> Seq<u32> {
        self.indices@
    }

    pub closed spec fn texture_spec(&self) -> u32 {
        self.texture_index
    }

    pub closed spec fn cull_spec(&self) -> Option<Direction> {
        self.cull_mode
    }

    /// Every triangle index names one of the face's vertices.
    pub open spec fn indices_in_range(&self) -> bool {
        forall|j: int| 0 <= j < self.indices_spec().len() ==> #[trigger] self.indices_spec()[j] < self.vertices_spec()
    }

    /// Builds a face from its type and vertex count. A quad face needs a multiple of four
    /// vertices, a triangle face a multiple of three.
    pub fn from_asset(
        face_type: FaceType,
        vertex_count: u32,
        texture_id: u32,
        cull_mode: Option<Direction>,
    ) -> (r: Result<FaceMinimal, BlockModelError>)
        ensures
            face_type == FaceType::Quad && vertex_count % 4 != 0 ==> r is Err,
            face_type == FaceType::Triangle && vertex_count % 3 != 0 ==> r is Err,
            face_type == FaceType::Quad && vertex_count % 4 == 0 ==> (r matches Ok(f) && f.indices_spec()
                == quad_indices((vertex_count / 4) as nat)),
            face_type == FaceType::Triangle && vertex_count % 3 == 0 ==> (r matches Ok(f)
                && f.indices_spec() == Seq::new(vertex_count as nat, |i: int| i as u32)),
            r matches Ok(f) ==> f.indices_in_range(),
            r matches Ok(f) ==> f.vertices_spec() == vertex_count && f.texture_spec() == texture_id
                && f.cull_spec() == cull_mode,
    {
        let mut indices: Vec<u32> = Vec::new();
        match face_type {
            FaceType::Quad => {
                if vertex_count % 4 != 0 {
                    return Err(BlockModelError::InvalidFace(
                        String::from_str("expected a multiple of 4 vertices for a quad face"),
                    ));
                }
                let quads = vertex_count / 4;
                let mut i: u32 = 0;
                while i < quads
                    invariant
                        i <= quads,
                        quads == vertex_count / 4,
                        indices@ == quad_indices(i as nat),
                        forall|j: int| 0 <= j < indices@.len() ==> #[trigger] indices@[j] < 4 * i,
                    decreases quads - i,
                {
                    assert(4 * i + 3 < vertex_count) by (nonlinear_arith)
                        requires i < quads, quads == vertex_count / 4;
                    let b = 4 * i;
                    indices.push(b);
                    indices.push(b + 1);
                    indices.push(b + 2);
                    indices.push(b);
                    indices.push(b + 2);
                    indices.push(b + 3);
                    proof {
                        assert(indices@ =~= quad_indices((i + 1) as nat));
                    }
                    i = i + 1;
                }
            },
            FaceType::Triangle => {
                if vertex_count % 3 != 0 {
                    return Err(BlockModelError::InvalidFace(
                        String::from_str("expected a multiple of 3 vertices for a triangle face"),
                    ));
                }
                let mut i: u32 = 0;
                while i < vertex_count
                    invariant
                        i <= vertex_count,
                        indices@ == Seq::new(i as nat, |k: int| k as u32),
                        forall|j: int| 0 <= j < indices@.len() ==> #[trigger] indices@[j] < i,
                    decreases vertex_count - i,
                {
                    indices.push(i);
                    proof {
                        assert(indices@ =~= Seq::new((i + 1) as nat, |k: int| k as u32));
                    }
                    i = i + 1;
                }
            },
        }
        Ok(FaceMinimal { vertex_count, indices, texture_index: texture_id, cull_mode })
    }

    /// The side whose neighbour may hide this face, if any.
    pub fn get_cull_mode(&self) -> (r: Option<Direction>)
        ensures
            r == self.cull_spec(),
    {
        self.cull_mode
    }

    pub fn get_vertex_count(&self) -> (r: u32)
        ensures
            r == self.vertices_spec(),
    {
        self.vertex_count
    }

    pub fn get_texture_index(&self) -> (r: u32)
        ensures
            r == self.texture_spec(),
    {
        self.texture_index
    }

    /// A copy of this face.
    pub fn duplicate(&self) -> (r: FaceMinimal)
        ensures
            r.vertices_spec() == self.vertices_spec(),
            r.indices_spec() == self.indices_spec(),
            r.texture_spec() == self.texture_spec(),
            r.cull_spec() == self.cull_spec(),
    {
        let mut indices: Vec<u32> = Vec::new();
        let mut i: usize = 0;
        while i < self.indices.len()
            invariant
                i <= self.indices@.len(),
                indices@ == self.indices@.take(i as int),
            decreases self.indices@.len() - i,
        {
            indices.push(self.indices[i]);
            proof {
                assert(self.indices@.take(i + 1) == self.indices@.take(i as int).push(self.indices@[i as int]));
            }
            i = i + 1;
        }
        proof {
            assert(self.indices@.take(self.indices@.len() as int) == self.indices@);
            use_type_invariant(self);
        }
        FaceMinimal { vertex_count: self.vertex_count, indices, texture_index: self.texture_index, cull_mode: self.cull_mode }
    }

    pub fn get_indices(&self) -> (r: &Vec<u32>)
        ensures
            r@ == self.indices_spec(),
    {
        &self.indices
    }
}

/// Two faces with the same vertex count, indices, texture and cull side.
pub open spec fn same_face(a: FaceMinimal, b: FaceMinimal) -> bool {
    &&& a.vertices_spec() == b.vertices_spec()
    &&& a.indices_spec() == b.indices_spec()
    &&& a.texture_spec() == b.texture_spec()
    &&& a.cull_spec() == b.cull_spec()
}

/// The bit of a side in a model's mask of full sides.
pub open spec fn full_bit(d: Direction) -> u8 {
    match d {
        Direction::Up => 1,
        Direction::Down => 2,
        Direction::North => 4,
        Direction::South => 8,
        Direction::East => 16,
        Direction::West => 32,
    }
}

/// The bit of a side in a cell's mask of culled sides.
pub open spec fn cull_bit(d: Direction) -> u8 {
    match d {
        Direction::North => 1,
        Direction::South => 2,
        Direction::East => 4,
        Direction::West => 8,
        Direction::Up => 16,
        Direction::Down => 32,
    }
}

fn full_bit_of(d: Direction) -> (r: u8)
    ensures
        r == full_bit(d),
{
    match d {
        Direction::Up => 1,
        Direction::Down => 2,
        Direction::North => 4,
        Direction::South => 8,
        Direction::East => 16,
        Direction::West => 32,
    }
}

/// What the mesher needs of a block model: its faces and which of its sides are full,
/// that is opaque and flush with the cell, able to hide a neighbour's face.
#[derive(Debug)]
pub struct BlockModelMinimal {
    faces: Vec<FaceMinimal>,
    full_sides: u8,
}

/// The mask of full sides that lists exactly `sides`.
pub open spec fn sides_mask(sides: Seq<Direction>) -> u8
    decreases sides.len(),
{
    if sides.len() == 0 {
        0
    } else {
        sides_mask(sides.drop_last()) | full_bit(sides.last())
    }
}

impl BlockModelMinimal {
    pub closed spec fn faces_spec(&self) -> Seq<FaceMinimal> {
        self.faces@
    }

    pub closed spec fn full_mask(&self) -> u8 {
        self.full_sides
    }

    /// Whether side `d` of this model is full.
    pub open spec fn full_spec(&self, d: Direction) -> bool {
        self.full_mask() & full_bit(d) != 0
    }

    /// A model with the given faces. Its full sides are `full_sides` when that list is not
    /// empty, else those of the parent (none without a parent).
    pub fn new(faces: Vec<FaceMinimal>, full_sides: &Vec<Direction>, parent_full: u8) -> (r: BlockModelMinimal)
        ensures
            r.faces_spec() == faces@,
            r.full_mask() == (if full_sides@.len() == 0 { parent_full } else { sides_mask(full_sides@) }),
    {
        let mut mask: u8 = 0;
        if full_sides.len() != 0 {
            let mut i: usize = 0;
            while i < full_sides.len()
                invariant
                    i <= full_sides@.len(),
                    mask == sides_mask(full_sides@.take(i as int)),
                decreases full_sides@.len() - i,
            {
                let b = full_bit_of(full_sides[i]);
                proof {
                    assert(full_sides@.take(i + 1).drop_last() == full_sides@.take(i as int));
                }
                mask = mask | b;
                i = i + 1;
            }
            proof {
                assert(full_sides@.take(full_sides@.len() as int) == full_sides@);
            }
        } else {
            mask = parent_full;
        }
        BlockModelMinimal { faces, full_sides: mask }
    }

    /// A model that extends `parent`: the parent's faces come first, then `faces`. Its full
    /// sides are `full_sides` when that list is not empty, else the parent's.
    pub fn with_parent(parent: &BlockModelMinimal, faces: Vec<FaceMinimal>, full_sides: &Vec<Direction>) -> (r: BlockModelMinimal)
        ensures
            r.faces_spec().len() == parent.faces_spec().len() + faces@.len(),
            forall|i: int| 0 <= i < parent.faces_spec().len() ==> same_face(#[trigger] r.faces_spec()[i], parent.faces_spec()[i]),
            forall|i: int| 0 <= i < faces@.len() ==> r.faces_spec()[parent.faces_spec().len() + i] == #[trigger] faces@[i],
            r.full_mask() == (if full_sides@.len() == 0 { parent.full_mask() } else { sides_mask(full_sides@) }),
    {
        let mut all: Vec<FaceMinimal> = Vec::new();
        let mut i: usize = 0;
        while i < parent.faces.len()
            invariant
                i <= parent.faces@.len(),
                all@.len() == i,
                forall|j: int| 0 <= j < i ==> same_face(#[trigger] all@[j], parent.faces@[j]),
            decreases parent.faces@.len() - i,
        {
            let ghost a0 = all@;
            all.push(parent.faces[i].duplicate());
            proof {
                assert forall|j: int| 0 <= j < i + 1 implies same_face(#[trigger] all@[j], parent.faces@[j]) by {
                    if j < i {
                        assert(all@[j] == a0[j]);
                    }
                }
            }
            i = i + 1;
        }
        let ghost n = all@.len();
        let ghost a1 = all@;
        let mut own = faces;
        let ghost own0 = own@;
        all.append(&mut own);
        proof {
            assert(all@ == a1 + own0);
            assert forall|j: int| 0 <= j < n implies same_face(#[trigger] all@[j], parent.faces@[j]) by {
                assert(all@[j] == a1[j]);
            }
        }
        BlockModelMinimal::new(all, full_sides, parent.full_sides)
    }

    pub fn get_full_sides(&self) -> (r: u8)
        ensures
            r == self.full_mask(),
    {
        self.full_sides
    }

    pub fn face_iter(&self) -> (r: &Vec<FaceMinimal>)
        ensures
            r@ == self.faces_spec(),
    {
        &self.faces
    }

    pub fn is_full(&self, direction: Direction) -> (r: bool)
        ensures
            r == self.full_spec(direction),
    {
        self.full_sides & full_bit_of(direction) != 0
    }
}

/// The block models by block state, each state at most once.
#[derive(Debug)]
pub struct MeshDataCache {
    keys: Vec<BlockState>,
    models: Vec<BlockModelMinimal>,
}

impl MeshDataCache {
    pub closed spec fn key_seq(&self) -> Seq<BlockStateView> {
        self.keys@.map_values(|k: BlockState| k@)
    }

    pub closed spec fn model_seq(&self) -> Seq<BlockModelMinimal> {
        self.models@
    }

    pub open spec fn wf(&self) -> bool {
        &&& self.key_seq().len() == self.model_seq().len()
        &&& forall|i: int, j: int|
            0 <= i < j < self.key_seq().len() ==> #[trigger] self.key_seq()[i] != #[trigger] self.key_seq()[j]
    }

    /// Whether state `s` has a model.
    pub open spec fn has_model(&self, s: BlockStateView) -> bool {
        exists|j: int| 0 <= j < self.key_seq().len() && #[trigger] self.key_seq()[j] == s
    }

    /// The position of state `s`'s model.
    pub open spec fn index_of(&self, s: BlockStateView) -> int {
        choose|j: int| 0 <= j < self.key_seq().len() && #[trigger] self.key_seq()[j] == s
    }

    /// The model of state `s`, where it has one.
    pub open spec fn model_of(&self, s: BlockStateView) -> BlockModelMinimal {
        self.model_seq()[self.index_of(s)]
    }

    /// Whether state `s` has a model whose side `d` is full. A state without a model is
    /// never full.
    pub open spec fn full_side(&self, s: BlockStateView, d: Direction) -> bool {
        self.has_model(s) && self.model_of(s).full_spec(d)
    }

    pub fn new() -> (r: MeshDataCache)
        ensures
            r.wf(),
            r.key_seq().len() == 0,
    {
        let r = MeshDataCache { keys: Vec::new(), models: Vec::new() };
        assert(r.key_seq() =~= Seq::empty());
        r
    }

    pub fn len(&self) -> (r: usize)
        ensures
            r == self.key_seq().len(),
    {
        self.keys.len()
    }

    /// The position of `state`'s model, if it has one.
    pub fn lookup(&self, state: &BlockState) -> (r: Option<usize>)
        requires
            self.wf(),
        ensures
            r matches Some(j) ==> j < self.key_seq().len() && self.key_seq()[j as int] == state@
                && self.index_of(state@) == j,
            r is None <==> !self.has_model(state@),
    {
        let mut i: usize = 0;
        while i < self.keys.len()
            invariant
                self.wf(),
                i <= self.key_seq().len(),
                forall|j: int| 0 <= j < i ==> #[trigger] self.key_seq()[j] != state@,
            decreases self.key_seq().len() - i,
        {
            if self.keys[i].same_as(state) {
                proof {
                    assert(self.key_seq()[i as int] == state@);
                    let c = self.index_of(state@);
                    assert(self.key_seq()[c] == state@);
                    if c != i {
                        if c < i {
                            assert(self.key_seq()[c] != self.key_seq()[i as int]);
                        } else {
                            assert(self.key_seq()[i as int] != self.key_seq()[c]);
                        }
                    }
                }
                return Some(i);
            }
            i = i + 1;
        }
        None
    }

    /// The model of `state`, if it has one.
    pub fn get(&self, state: &BlockState) -> (r: Option<&BlockModelMinimal>)
        requires
            self.wf(),
        ensures
            r matches Some(m) ==> self.has_model(state@) && *m == self.model_of(state@),
            r is None <==> !self.has_model(state@),
    {
        match self.lookup(state) {
            Some(j) => Some(&self.models[j]),
            None => None,
        }
    }

    /// The model at position `j`.
    pub fn model_at(&self, j: usize) -> (r: &BlockModelMinimal)
        requires
            j < self.model_seq().len(),
        ensures
            *r == self.model_seq()[j as int],
    {
        &self.models[j]
    }

    /// Gives `state` the model `model`, replacing the one it had.
    pub fn insert(&mut self, state: BlockState, model: BlockModelMinimal)
        requires
            old(self).wf(),
        ensures
            final(self).wf(),
            final(self).has_model(state@),
            final(self).model_of(state@) == model,
            forall|s: BlockStateView| s != state@ ==> #[trigger] final(self).has_model(s) == old(self).has_model(s),
            forall|s: BlockStateView|
                s != state@ && old(self).has_model(s) ==> #[trigger] final(self).model_of(s) == old(self).model_of(s),
    {
        let ghost sv = state@;
        match self.lookup(&state) {
            Some(j) => {
                self.models.set(j, model);
                proof {
                    assert(self.key_seq() == old(self).key_seq());
                    assert forall|s: BlockStateView| s != sv implies #[trigger] self.has_model(s) == old(self).has_model(s)
                        && (old(self).has_model(s) ==> self.model_of(s) == old(self).model_of(s)) by {
                        if self.has_model(s) {
                            let k = self.index_of(s);
                            assert(old(self).key_seq()[k] == s);
                        }
                        if old(self).has_model(s) {
                            let c = old(self).index_of(s);
                            assert(c != j);
                            assert(self.key_seq()[c] == s);
                            let k = self.index_of(s);
                            assert(old(self).key_seq()[k] == s);
                            if k != c {
                                if k < c {
                                    assert(old(self).key_seq()[k] != old(self).key_seq()[c]);
                                } else {
                                    assert(old(self).key_seq()[c] != old(self).key_seq()[k]);
                                }
                            }
                        }
                    }
                    assert forall|s: BlockStateView| s != sv && old(self).has_model(s) implies #[trigger] self.model_of(s) == old(self).model_of(s) by {
                        assert(self.has_model(s) == old(self).has_model(s));
                    }
                }
            },
            None => {
                self.keys.push(state);
                self.models.push(model);
                proof {
                    let n = old(self).key_seq().len();
                    assert(self.key_seq() =~= old(self).key_seq().push(sv));
                    assert(self.key_seq()[n as int] == sv);
                    let c = self.index_of(sv);
                    assert(c == n);
                    assert forall|s: BlockStateView| s != sv implies #[trigger] self.has_model(s) == old(self).has_model(s)
                        && (old(self).has_model(s) ==> self.model_of(s) == old(self).model_of(s)) by {
                        if self.has_model(s) {
                            let k = self.index_of(s);
                            assert(old(self).key_seq()[k] == s);
                        }
                        if old(self).has_model(s) {
                            let c = old(self).index_of(s);
                            assert(self.key_seq()[c] == s);
                            let k = self.index_of(s);
                            if k != c {
                                if k < c {
                                    assert(old(self).key_seq()[k] != old(self).key_seq()[c]);
                                } else {
                                    assert(old(self).key_seq()[c] != old(self).key_seq()[k]);
                                }
                            }
                        }
                    }
                    assert forall|s: BlockStateView| s != sv && old(self).has_model(s) implies #[trigger] self.model_of(s) == old(self).model_of(s) by {
                        assert(self.has_model(s) == old(self).has_model(s));
                    }
                }
            },
        }
    }
}


/// The six face neighbours of a chunk: north (+z), south (-z), east (+x), west (-x),
/// up (+y), down (-y).
pub type NeighborData<'a> = (&'a ChunkData, &'a ChunkData, &'a ChunkData, &'a ChunkData, &'a ChunkData, &'a ChunkData);

/// The six face neighbours, as values.
pub type Neighbors = (ChunkData, ChunkData, ChunkData, ChunkData, ChunkData, ChunkData);

pub open spec fn neighbors_of(nb: NeighborData) -> Neighbors {
    (*nb.0, *nb.1, *nb.2, *nb.3, *nb.4, *nb.5)
}

/// Chunk number `q`: the chunk itself for 0, then north, south, east, west, up, down.
pub open spec fn chunk_at(c: ChunkData, nb: Neighbors, q: int) -> ChunkData {
    if q == 0 {
        c
    } else if q == 1 {
        nb.0
    } else if q == 2 {
        nb.1
    } else if q == 3 {
        nb.2
    } else if q == 4 {
        nb.3
    } else if q == 5 {
        nb.4
    } else {
        nb.5
    }
}

/// Which chunk (as in [`chunk_at`]) and which cell of it lies next to `(x, y, z)` in
/// direction `d`. Stepping off a face wraps to the far side of the neighbour there.
pub open spec fn adjacent(x: int, y: int, z: int, d: Direction) -> (int, int) {
    match d {
        Direction::North => if z == 31 { (1, cell_index(x, y, 0)) } else { (0, cell_index(x, y, z + 1)) },
        Direction::South => if z == 0 { (2, cell_index(x, y, 31)) } else { (0, cell_index(x, y, z - 1)) },
        Direction::East => if x == 31 { (3, cell_index(0, y, z)) } else { (0, cell_index(x + 1, y, z)) },
        Direction::West => if x == 0 { (4, cell_index(31, y, z)) } else { (0, cell_index(x - 1, y, z)) },
        Direction::Up => if y == 31 { (5, cell_index(x, 0, z)) } else { (0, cell_index(x, y + 1, z)) },
        Direction::Down => if y == 0 { (6, cell_index(x, 31, z)) } else { (0, cell_index(x, y - 1, z)) },
    }
}

/// The state of the cell next to `(x, y, z)` in direction `d`.
pub open spec fn adjacent_state(c: ChunkData, nb: Neighbors, x: int, y: int, z: int, d: Direction) -> BlockStateView {
    let (q, i) = adjacent(x, y, z, d);
    chunk_at(c, nb, q).state_at(i)
}

/// Whether the cell next to `(x, y, z)` in direction `d` hides that side: its model's
/// side facing back is full.
pub open spec fn neighbor_full(c: ChunkData, nb: Neighbors, cache: MeshDataCache, x: int, y: int, z: int, d: Direction) -> bool {
    cache.full_side(adjacent_state(c, nb, x, y, z, d), opposite_of(d))
}

/// The mask of the culled sides of cell `(x, y, z)`, one bit per side as in [`cull_bit`].
pub open spec fn cull_mask(c: ChunkData, nb: Neighbors, cache: MeshDataCache, x: int, y: int, z: int) -> u8 {
    (if neighbor_full(c, nb, cache, x, y, z, Direction::North) { 1u8 } else { 0u8 })
    | (if neighbor_full(c, nb, cache, x, y, z, Direction::South) { 2u8 } else { 0u8 })
    | (if neighbor_full(c, nb, cache, x, y, z, Direction::East) { 4u8 } else { 0u8 })
    | (if neighbor_full(c, nb, cache, x, y, z, Direction::West) { 8u8 } else { 0u8 })
    | (if neighbor_full(c, nb, cache, x, y, z, Direction::Up) { 16u8 } else { 0u8 })
    | (if neighbor_full(c, nb, cache, x, y, z, Direction::Down) { 32u8 } else { 0u8 })
}

/// Whether a face of the cell `(x, y, z)` is drawn: a face without a cull side always is,
/// any other face unless the neighbour on its cull side hides it.
pub open spec fn face_visible(c: ChunkData, nb: Neighbors, cache: MeshDataCache, x: int, y: int, z: int, f: FaceMinimal) -> bool {
    match f.cull_spec() {
        None => true,
        Some(d) => !neighbor_full(c, nb, cache, x, y, z, d),
    }
}

/// A placed face names a model of the cache and a face of that model.
pub open spec fn placed_ok(cache: MeshDataCache, pf: PlacedFace) -> bool {
    pf.model < cache.model_seq().len() && pf.face < cache.model_seq()[pf.model as int].faces_spec().len()
}

/// One face placed in a chunk's mesh: the cell, the model's position in the cache and the
/// face's position in the model.
#[derive(Debug, Clone, Copy, PartialEq, Eq, Structural)]
pub struct PlacedFace {
    pub x: usize,
    pub y: usize,
    pub z: usize,
    pub model: usize,
    pub face: usize,
}

/// The drawn faces among the first `n` faces of model `m` (at cache position `mi`) in cell
/// `(x, y, z)`, in model order.
pub open spec fn faces_of(c: ChunkData, nb: Neighbors, cache: MeshDataCache, m: BlockModelMinimal, mi: int, x: int, y: int, z: int, n: nat) -> Seq<PlacedFace>
    decreases n,
{
    if n == 0 {
        seq![]
    } else {
        faces_of(c, nb, cache, m, mi, x, y, z, (n - 1) as nat) + if face_visible(c, nb, cache, x, y, z, m.faces_spec()[n - 1]) {
            seq![PlacedFace { x: x as usize, y: y as usize, z: z as usize, model: mi as usize, face: (n - 1) as usize }]
        } else {
            seq![]
        }
    }
}

/// The drawn faces of cell `i`: none for the empty block or a state without a model.
pub open spec fn cell_faces(c: ChunkData, nb: Neighbors, cache: MeshDataCache, i: int) -> Seq<PlacedFace> {
    let s = c.state_at(i);
    let (x, y, z) = index_xyz(i);
    if s.id == air_id() || !cache.has_model(s) {
        seq![]
    } else {
        let m = cache.model_of(s);
        faces_of(c, nb, cache, m, cache.index_of(s), x, y, z, m.faces_spec().len())
    }
}

/// The drawn faces of the first `n` cells, in cell order.
pub open spec fn mesh_faces(c: ChunkData, nb: Neighbors, cache: MeshDataCache, n: nat) -> Seq<PlacedFace>
    decreases n,
{
    if n == 0 {
        seq![]
    } else {
        mesh_faces(c, nb, cache, (n - 1) as nat) + cell_faces(c, nb, cache, n - 1)
    }
}

/// Whether every cell of the chunk is the empty block.
pub open spec fn all_air(c: ChunkData) -> bool {
    forall|i: int| 0 <= i < BLOCKS_PER_CHUNK ==> (#[trigger] c.state_at(i)).id == air_id()
}

/// The faces of a chunk's mesh, in cell order and, within a cell, in model order.
#[derive(Debug, Clone)]
pub struct MeshFaces {
    pub faces: Vec<PlacedFace>,
}

/// For each palette row, the cache position of its state's model.
pub open spec fn models_match(list: Seq<Option<usize>>, pal: Seq<crate::chunk::PaletteEntry>, cache: MeshDataCache) -> bool {
    &&& list.len() == pal.len()
    &&& forall|i: int| 0 <= i < list.len() ==> match #[trigger] list[i] {
        Some(j) => j < cache.key_seq().len() && cache.has_model(pal[i].block@) && cache.index_of(pal[i].block@) == j,
        None => !cache.has_model(pal[i].block@),
    }
}

/// The model lists of the chunk and of its six neighbours, in [`chunk_at`] order.
pub open spec fn all_models_match(models: Seq<Vec<Option<usize>>>, c: ChunkData, nb: Neighbors, cache: MeshDataCache) -> bool {
    &&& models.len() == 7
    &&& forall|q: int| 0 <= q < 7 ==> models_match(#[trigger] models[q]@, chunk_at(c, nb, q).palette_seq(), cache)
}

/// Looks up the model of every palette row of `chunk` once, so that the mesher indexes a
/// list rather than searching the cache for each cell.
pub fn setup_model_cache(chunk: &ChunkData, list: &mut Vec<Option<usize>>, cache: &MeshDataCache)
    requires
        cache.wf(),
        old(list)@.len() == 0,
    ensures
        models_match(final(list)@, chunk.palette_seq(), *cache),
{
    let pal = chunk.palette_iter();
    let mut i: usize = 0;
    while i < pal.len()
        invariant
            cache.wf(),
            pal@ == chunk.palette_seq(),
            i <= pal@.len(),
            list@.len() == i,
            forall|k: int| 0 <= k < i ==> match #[trigger] list@[k] {
                Some(j) => j < cache.key_seq().len() && cache.has_model(pal@[k].block@) && cache.index_of(pal@[k].block@) == j,
                None => !cache.has_model(pal@[k].block@),
            },
        decreases pal@.len() - i,
    {
        let m = cache.lookup(&pal[i].block);
        list.push(m);
        i = i + 1;
    }
}

/// Whether the model of palette row `id` (found through `list`) has side `side` full.
fn full_at(cache: &MeshDataCache, list: &Vec<Option<usize>>, pal: Ghost<Seq<crate::chunk::PaletteEntry>>, id: usize, side: Direction) -> (r: bool)
    requires
        cache.wf(),
        models_match(list@, pal@, *cache),
        id < list@.len(),
    ensures
        r == cache.full_side(pal@[id as int].block@, side),
{
    match list[id] {
        Some(j) => cache.model_at(j).is_full(side),
        None => false,
    }
}

proof fn lemma_mask_decode(a: u8, b: u8, c: u8, d: u8, e: u8, f: u8)
    requires
        a == 0 || a == 1,
        b == 0 || b == 2,
        c == 0 || c == 4,
        d == 0 || d == 8,
        e == 0 || e == 16,
        f == 0 || f == 32,
    ensures
        ((a | b | c | d | e | f) & 1 != 0) == (a == 1),
        ((a | b | c | d | e | f) & 2 != 0) == (b == 2),
        ((a | b | c | d | e | f) & 4 != 0) == (c == 4),
        ((a | b | c | d | e | f) & 8 != 0) == (d == 8),
        ((a | b | c | d | e | f) & 16 != 0) == (e == 16),
        ((a | b | c | d | e | f) & 32 != 0) == (f == 32),
{
    assert(((a | b | c | d | e | f) & 1 != 0) == (a == 1)) by (bit_vector)
        requires a == 0 || a == 1, b == 0 || b == 2, c == 0 || c == 4, d == 0 || d == 8, e == 0 || e == 16, f == 0 || f == 32;
    assert(((a | b | c | d | e | f) & 2 != 0) == (b == 2)) by (bit_vector)
        requires a == 0 || a == 1, b == 0 || b == 2, c == 0 || c == 4, d == 0 || d == 8, e == 0 || e == 16, f == 0 || f == 32;
    assert(((a | b | c | d | e | f) & 4 != 0) == (c == 4)) by (bit_vector)
        requires a == 0 || a == 1, b == 0 || b == 2, c == 0 || c == 4, d == 0 || d == 8, e == 0 || e == 16, f == 0 || f == 32;
    assert(((a | b | c | d | e | f) & 8 != 0) == (d == 8)) by (bit_vector)
        requires a == 0 || a == 1, b == 0 || b == 2, c == 0 || c == 4, d == 0 || d == 8, e == 0 || e == 16, f == 0 || f == 32;
    assert(((a | b | c | d | e | f) & 16 != 0) == (e == 16)) by (bit_vector)
        requires a == 0 || a == 1, b == 0 || b == 2, c == 0 || c == 4, d == 0 || d == 8, e == 0 || e == 16, f == 0 || f == 32;
    assert(((a | b | c | d | e | f) & 32 != 0) == (f == 32)) by (bit_vector)
        requires a == 0 || a == 1, b == 0 || b == 2, c == 0 || c == 4, d == 0 || d == 8, e == 0 || e == 16, f == 0 || f == 32;
}

/// A cell's cull mask has the bit of side `d` exactly when the neighbour on side `d`
/// hides that side.
pub proof fn lemma_cull_mask_bit(c: ChunkData, nb: Neighbors, cache: MeshDataCache, x: int, y: int, z: int, d: Direction)
    ensures
        (cull_mask(c, nb, cache, x, y, z) & cull_bit(d) != 0) == neighbor_full(c, nb, cache, x, y, z, d),
{
    lemma_mask_decode(
        if neighbor_full(c, nb, cache, x, y, z, Direction::North) { 1u8 } else { 0u8 },
        if neighbor_full(c, nb, cache, x, y, z, Direction::South) { 2u8 } else { 0u8 },
        if neighbor_full(c, nb, cache, x, y, z, Direction::East) { 4u8 } else { 0u8 },
        if neighbor_full(c, nb, cache, x, y, z, Direction::West) { 8u8 } else { 0u8 },
        if neighbor_full(c, nb, cache, x, y, z, Direction::Up) { 16u8 } else { 0u8 },
        if neighbor_full(c, nb, cache, x, y, z, Direction::Down) { 32u8 } else { 0u8 },
    );
}

/// Whether a face whose cull side is `dir` is hidden under the cull mask `cull_info`.
pub fn should_skip(dir: Direction, cull_info: u8) -> (r: bool)
    ensures
        r == (cull_info & cull_bit(dir) != 0),
{
    match dir {
        Direction::North => cull_info & 1 != 0,
        Direction::South => cull_info & 2 != 0,
        Direction::East => cull_info & 4 != 0,
        Direction::West => cull_info & 8 != 0,
        Direction::Up => cull_info & 16 != 0,
        Direction::Down => cull_info & 32 != 0,
    }
}


/// Reads the palette index of the cell next to `(x, y, z)` in direction `d`, and the
/// number of the chunk it lies in.
fn adjacent_id(chunk: &ChunkData, neighbors: NeighborData, x: usize, y: usize, z: usize, d: Direction) -> (r: (usize, usize))
    requires
        x < 32 && y < 32 && z < 32,
        chunk.wf(),
        neighbors.0.wf() && neighbors.1.wf() && neighbors.2.wf(),
        neighbors.3.wf() && neighbors.4.wf() && neighbors.5.wf(),
    ensures
        r.1 == adjacent(x as int, y as int, z as int, d).0,
        r.0 == chunk_at(*chunk, neighbors_of(neighbors), r.1 as int).cell(adjacent(x as int, y as int, z as int, d).1),
        r.0 < chunk_at(*chunk, neighbors_of(neighbors), r.1 as int).palette_seq().len(),
        r.1 < 7,
{
    let (north, south, east, west, up, down) = neighbors;
    match d {
        Direction::North => if z == 31 { (north.block_at_index(xyz_to_index(x, y, 0)), 1) } else { (chunk.block_at_index(xyz_to_index(x, y, z + 1)), 0) },
        Direction::South => if z == 0 { (south.block_at_index(xyz_to_index(x, y, 31)), 2) } else { (chunk.block_at_index(xyz_to_index(x, y, z - 1)), 0) },
        Direction::East => if x == 31 { (east.block_at_index(xyz_to_index(0, y, z)), 3) } else { (chunk.block_at_index(xyz_to_index(x + 1, y, z)), 0) },
        Direction::West => if x == 0 { (west.block_at_index(xyz_to_index(31, y, z)), 4) } else { (chunk.block_at_index(xyz_to_index(x - 1, y, z)), 0) },
        Direction::Up => if y == 31 { (up.block_at_index(xyz_to_index(x, 0, z)), 5) } else { (chunk.block_at_index(xyz_to_index(x, y + 1, z)), 0) },
        Direction::Down => if y == 0 { (down.block_at_index(xyz_to_index(x, 31, z)), 6) } else { (chunk.block_at_index(xyz_to_index(x, y - 1, z)), 0) },
    }
}

/// Whether the neighbour of `(x, y, z)` in direction `d` hides that side.
fn side_hidden(chunk: &ChunkData, x: usize, y: usize, z: usize, neighbors: NeighborData, models: &Vec<Vec<Option<usize>>>, cache: &MeshDataCache, d: Direction) -> (r: bool)
    requires
        x < 32 && y < 32 && z < 32,
        chunk.wf(),
        neighbors.0.wf() && neighbors.1.wf() && neighbors.2.wf(),
        neighbors.3.wf() && neighbors.4.wf() && neighbors.5.wf(),
        cache.wf(),
        all_models_match(models@, *chunk, neighbors_of(neighbors), *cache),
    ensures
        r == neighbor_full(*chunk, neighbors_of(neighbors), *cache, x as int, y as int, z as int, d),
{
    let (id, q) = adjacent_id(chunk, neighbors, x, y, z, d);
    let ghost c = chunk_at(*chunk, neighbors_of(neighbors), q as int);
    proof {
        assert(models_match(models@[q as int]@, c.palette_seq(), *cache));
    }
    full_at(cache, &models[q], Ghost(c.palette_seq()), id, d.opposite())
}

/// The cull mask of cell `(x, y, z)`: one bit per side (as in [`cull_bit`]) whose
/// neighbouring cell, in this chunk or across a face in a neighbour, has a model whose side
/// facing back is full. A neighbour without a model never hides anything.
pub fn culled_sides(chunk: &ChunkData, x: usize, y: usize, z: usize, neighbors: NeighborData, models: &Vec<Vec<Option<usize>>>, cache: &MeshDataCache) -> (r: u8)
    requires
        x < 32 && y < 32 && z < 32,
        chunk.wf(),
        neighbors.0.wf() && neighbors.1.wf() && neighbors.2.wf(),
        neighbors.3.wf() && neighbors.4.wf() && neighbors.5.wf(),
        cache.wf(),
        all_models_match(models@, *chunk, neighbors_of(neighbors), *cache),
    ensures
        r == cull_mask(*chunk, neighbors_of(neighbors), *cache, x as int, y as int, z as int),
{
    let cull_north = side_hidden(chunk, x, y, z, neighbors, models, cache, Direction::North);
    let cull_south = side_hidden(chunk, x, y, z, neighbors, models, cache, Direction::South);
    let cull_east = side_hidden(chunk, x, y, z, neighbors, models, cache, Direction::East);
    let cull_west = side_hidden(chunk, x, y, z, neighbors, models, cache, Direction::West);
    let cull_up = side_hidden(chunk, x, y, z, neighbors, models, cache, Direction::Up);
    let cull_down = side_hidden(chunk, x, y, z, neighbors, models, cache, Direction::Down);
    (if cull_north { 1u8 } else { 0u8 }) | (if cull_south { 2u8 } else { 0u8 }) | (if cull_east { 4u8 } else { 0u8 })
        | (if cull_west { 8u8 } else { 0u8 }) | (if cull_up { 16u8 } else { 0u8 }) | (if cull_down { 32u8 } else { 0u8 })
}

/// Builds the mesh of `chunk` from its cells and, at its faces, its neighbours' cells.
/// Every non-empty cell with a model contributes each of its model's faces that the
/// neighbour on the face's cull side does not hide. `None` when every cell is empty.
pub fn create_chunk_mesh(chunk: &ChunkData, cache: &MeshDataCache, neighbors: NeighborData) -> (r: Option<MeshFaces>)
    requires
        chunk.wf(),
        neighbors.0.wf() && neighbors.1.wf() && neighbors.2.wf(),
        neighbors.3.wf() && neighbors.4.wf() && neighbors.5.wf(),
        cache.wf(),
    ensures
        r is None <==> all_air(*chunk),
        r matches Some(m) ==> m.faces@ == mesh_faces(*chunk, neighbors_of(neighbors), *cache, BLOCKS_PER_CHUNK as nat),
        r matches Some(m) ==> forall|k: int| 0 <= k < m.faces@.len() ==> placed_ok(*cache, #[trigger] m.faces@[k]),
{
    let ghost nb = neighbors_of(neighbors);
    let (north, south, east, west, up, down) = neighbors;
    let mut models: Vec<Vec<Option<usize>>> = Vec::new();
    let mut l0: Vec<Option<usize>> = Vec::new();
    setup_model_cache(chunk, &mut l0, cache);
    models.push(l0);
    let mut l1: Vec<Option<usize>> = Vec::new();
    setup_model_cache(north, &mut l1, cache);
    models.push(l1);
    let mut l2: Vec<Option<usize>> = Vec::new();
    setup_model_cache(south, &mut l2, cache);
    models.push(l2);
    let mut l3: Vec<Option<usize>> = Vec::new();
    setup_model_cache(east, &mut l3, cache);
    models.push(l3);
    let mut l4: Vec<Option<usize>> = Vec::new();
    setup_model_cache(west, &mut l4, cache);
    models.push(l4);
    let mut l5: Vec<Option<usize>> = Vec::new();
    setup_model_cache(up, &mut l5, cache);
    models.push(l5);
    let mut l6: Vec<Option<usize>> = Vec::new();
    setup_model_cache(down, &mut l6, cache);
    models.push(l6);
    proof {
        assert forall|q: int| 0 <= q < 7 implies models_match(#[trigger] models@[q]@, chunk_at(*chunk, nb, q).palette_seq(), *cache) by {
            if q == 0 {
                assert(models@[0] == l0);
            }
        }
    }
    let pal = chunk.palette_iter();
    let mut air: Vec<bool> = Vec::new();
    let mut k: usize = 0;
    while k < pal.len()
        invariant
            pal@ == chunk.palette_seq(),
            k <= pal@.len(),
            air@.len() == k,
            forall|j: int| 0 <= j < k ==> #[trigger] air@[j] == (pal@[j].block@.id == air_id()),
        decreases pal@.len() - k,
    {
        air.push(pal[k].block.is_air());
        k = k + 1;
    }
    let mut faces: Vec<PlacedFace> = Vec::new();
    let mut any_solid = false;
    let mut i: usize = 0;
    while i < BLOCKS_PER_CHUNK
        invariant
            i <= BLOCKS_PER_CHUNK,
            chunk.wf(),
            north.wf() && south.wf() && east.wf() && west.wf() && up.wf() && down.wf(),
            nb == neighbors_of(neighbors),
            neighbors == (north, south, east, west, up, down),
            cache.wf(),
            all_models_match(models@, *chunk, nb, *cache),
            pal@ == chunk.palette_seq(),
            air@.len() == pal@.len(),
            forall|j: int| 0 <= j < pal@.len() ==> #[trigger] air@[j] == (pal@[j].block@.id == air_id()),
            faces@ == mesh_faces(*chunk, nb, *cache, i as nat),
            forall|k: int| 0 <= k < faces@.len() ==> placed_ok(*cache, #[trigger] faces@[k]),
            any_solid == exists|j: int| 0 <= j < i && (#[trigger] chunk.state_at(j)).id != air_id(),
        decreases BLOCKS_PER_CHUNK - i,
    {
        let id = chunk.block_at_index(i);
        let ghost before = faces@;
        proof {
            assert(models_match(models@[0]@, chunk.palette_seq(), *cache));
        }
        if air[id] {
            proof {
                assert(cell_faces(*chunk, nb, *cache, i as int) == Seq::<PlacedFace>::empty());
                assert(faces@ =~= mesh_faces(*chunk, nb, *cache, (i + 1) as nat));
            }
            i = i + 1;
            continue;
        }
        any_solid = true;
        let (x, y, z) = index_to_xyz(i);
        let cull = culled_sides(chunk, x, y, z, neighbors, &models, cache);
        match models[0][id] {
            None => {
                proof {
                    assert(faces@ =~= mesh_faces(*chunk, nb, *cache, (i + 1) as nat));
                }
            },
            Some(j) => {
                proof {
                    assert(models_match(models@[0]@, chunk.palette_seq(), *cache));
                    assert(j < cache.key_seq().len());
                }
                let model = cache.model_at(j);
                let ghost s = pal@[id as int].block@;
                let model_faces = model.face_iter();
                let mut f: usize = 0;
                while f < model_faces.len()
                    invariant
                        f <= model_faces@.len(),
                        model_faces@ == model.faces_spec(),
                        *model == cache.model_of(s),
                        j == cache.index_of(s),
                        cull == cull_mask(*chunk, nb, *cache, x as int, y as int, z as int),
                        faces@ == before + faces_of(*chunk, nb, *cache, *model, j as int, x as int, y as int, z as int, f as nat),
                        j < cache.model_seq().len(),
                        *model == cache.model_seq()[j as int],
                        forall|k: int| 0 <= k < faces@.len() ==> placed_ok(*cache, #[trigger] faces@[k]),
                    decreases model_faces@.len() - f,
                {
                    let face = &model_faces[f];
                    let shown = match face.get_cull_mode() {
                        None => true,
                        Some(d) => !should_skip(d, cull),
                    };
                    proof {
                        if let Some(d) = face.cull_spec() {
                            lemma_cull_mask_bit(*chunk, nb, *cache, x as int, y as int, z as int, d);
                        }
                    }
                    let ghost fb = faces@;
                    if shown {
                        faces.push(PlacedFace { x, y, z, model: j, face: f });
                    }
                    proof {
                        assert forall|k: int| 0 <= k < faces@.len() implies placed_ok(*cache, #[trigger] faces@[k]) by {
                            if k < fb.len() {
                                assert(faces@[k] == fb[k]);
                            }
                        }
                    }
                    proof {
                        assert(faces@ =~= before + faces_of(*chunk, nb, *cache, *model, j as int, x as int, y as int, z as int, (f + 1) as nat));
                    }
                    f = f + 1;
                }
                proof {
                    assert(faces@ =~= mesh_faces(*chunk, nb, *cache, (i + 1) as nat));
                }
            },
        }
        i = i + 1;
    }
    if !any_solid {
        proof {
            assert forall|j: int| 0 <= j < BLOCKS_PER_CHUNK implies (#[trigger] chunk.state_at(j)).id == air_id() by {}
        }
        None
    } else {
        Some(MeshFaces { faces })
    }
}


/// A side of a cell: north is +z, east is +x, up is +y.
#[derive(Debug, Clone, Copy, PartialEq, Eq, Structural)]
pub enum Facing {
    North,
    South,
    East,
    West,
    Up,
    Down,
}

pub open spec fn facing_of(d: Direction) -> Facing {
    match d {
        Direction::Up => Facing::Up,
        Direction::Down => Facing::Down,
        Direction::North => Facing::North,
        Direction::South => Facing::South,
        Direction::East => Facing::East,
        Direction::West => Facing::West,
    }
}

impl From<Direction> for Facing {
    fn from(value: Direction) -> (r: Facing) {
        match value {
            Direction::Up => Facing::Up,
            Direction::Down => Facing::Down,
            Direction::North => Facing::North,
            Direction::South => Facing::South,
            Direction::East => Facing::East,
            Direction::West => Facing::West,
        }
    }
}

impl vstd::std_specs::convert::FromSpecImpl<Direction> for Facing {
    open spec fn obeys_from_spec() -> bool {
        true
    }

    open spec fn from_spec(d: Direction) -> Facing {
        facing_of(d)
    }
}

/// The cell next to `(x, y, z)` on side `facing`; it may lie outside the chunk.
pub fn new_block(facing: Facing, x: isize, y: isize, z: isize) -> (r: (isize, isize, isize))
    requires
        isize::MIN < x < isize::MAX,
        isize::MIN < y < isize::MAX,
        isize::MIN < z < isize::MAX,
    ensures
        r == match facing {
            Facing::North => (x, y, (z + 1) as isize),
            Facing::South => (x, y, (z - 1) as isize),
            Facing::East => ((x + 1) as isize, y, z),
            Facing::West => ((x - 1) as isize, y, z),
            Facing::Up => (x, (y + 1) as isize, z),
            Facing::Down => (x, (y - 1) as isize, z),
        },
{
    match facing {
        Facing::North => (x, y, z + 1),
        Facing::South => (x, y, z - 1),
        Facing::East => (x + 1, y, z),
        Facing::West => (x - 1, y, z),
        Facing::Up => (x, y + 1, z),
        Facing::Down => (x, y - 1, z),
    }
}


/// The face of the cache that a placed face names.
pub open spec fn face_at(cache: MeshDataCache, pf: PlacedFace) -> FaceMinimal {
    cache.model_seq()[pf.model as int].faces_spec()[pf.face as int]
}

/// The vertices of the first `n` placed faces, added up.
pub open spec fn vertex_total(fs: Seq<PlacedFace>, cache: MeshDataCache, n: nat) -> int
    decreases n,
{
    if n == 0 {
        0
    } else {
        vertex_total(fs, cache, (n - 1) as nat) + face_at(cache, fs[n - 1]).vertices_spec()
    }
}

/// The triangle indices of the first `n` placed faces: each face's own indices, offset by
/// the vertices of the faces before it.
pub open spec fn mesh_indices(fs: Seq<PlacedFace>, cache: MeshDataCache, n: nat) -> Seq<u32>
    decreases n,
{
    if n == 0 {
        seq![]
    } else {
        let off = vertex_total(fs, cache, (n - 1) as nat);
        mesh_indices(fs, cache, (n - 1) as nat) + face_at(cache, fs[n - 1]).indices_spec().map_values(
            |i: u32| (i + off) as u32,
        )
    }
}

/// The texture layer of every vertex of the first `n` placed faces: each face's layer,
/// once per vertex of the face.
pub open spec fn mesh_textures(fs: Seq<PlacedFace>, cache: MeshDataCache, n: nat) -> Seq<u32>
    decreases n,
{
    if n == 0 {
        seq![]
    } else {
        let f = face_at(cache, fs[n - 1]);
        mesh_textures(fs, cache, (n - 1) as nat) + Seq::new(f.vertices_spec(), |k: int| f.texture_spec())
    }
}

proof fn lemma_vertex_total_grows(fs: Seq<PlacedFace>, cache: MeshDataCache, a: nat, b: nat)
    requires
        a <= b,
    ensures
        vertex_total(fs, cache, a) <= vertex_total(fs, cache, b),
    decreases b - a,
{
    if a < b {
        lemma_vertex_total_grows(fs, cache, a, (b - 1) as nat);
    }
}

/// The integer part of a chunk mesh's buffers: its triangle indices, the texture layer of
/// each vertex, and the number of vertices.
#[derive(Debug)]
pub struct MeshIndices {
    pub indices: Vec<u32>,
    pub texture_ids: Vec<u32>,
    pub vertex_count: u32,
}

/// Lays out the placed faces of a mesh one after another: the index buffer (each face's
/// indices offset by the vertices before it) and a texture layer per vertex. Every index
/// names a vertex of the mesh. `None` when the mesh has more vertices than `u32` counts.
pub fn index_buffers(mesh: &MeshFaces, cache: &MeshDataCache) -> (r: Option<MeshIndices>)
    requires
        cache.wf(),
        forall|k: int| 0 <= k < mesh.faces@.len() ==> placed_ok(*cache, #[trigger] mesh.faces@[k]),
    ensures
        r is None <==> vertex_total(mesh.faces@, *cache, mesh.faces@.len()) > u32::MAX,
        r matches Some(b) ==> {
            &&& b.vertex_count == vertex_total(mesh.faces@, *cache, mesh.faces@.len())
            &&& b.indices@ == mesh_indices(mesh.faces@, *cache, mesh.faces@.len())
            &&& b.texture_ids@ == mesh_textures(mesh.faces@, *cache, mesh.faces@.len())
            &&& forall|j: int| 0 <= j < b.indices@.len() ==> #[trigger] b.indices@[j] < b.vertex_count
        },
{
    let ghost fs = mesh.faces@;
    let mut indices: Vec<u32> = Vec::new();
    let mut texture_ids: Vec<u32> = Vec::new();
    let mut offset: u32 = 0;
    let mut k: usize = 0;
    while k < mesh.faces.len()
        invariant
            cache.wf(),
            fs == mesh.faces@,
            forall|q: int| 0 <= q < fs.len() ==> placed_ok(*cache, #[trigger] fs[q]),
            k <= fs.len(),
            offset == vertex_total(fs, *cache, k as nat),
            indices@ == mesh_indices(fs, *cache, k as nat),
            texture_ids@ == mesh_textures(fs, *cache, k as nat),
            forall|j: int| 0 <= j < indices@.len() ==> #[trigger] indices@[j] < offset,
        decreases fs.len() - k,
    {
        let pf = mesh.faces[k];
        proof {
            assert(placed_ok(*cache, fs[k as int]));
        }
        let model = cache.model_at(pf.model);
        let face = &model.face_iter()[pf.face];
        proof {
            use_type_invariant(face);
            assert(*face == face_at(*cache, fs[k as int]));
        }
        let vc = face.vertex_count;
        if vc > u32::MAX - offset {
            proof {
                lemma_vertex_total_grows(fs, *cache, (k + 1) as nat, fs.len());
            }
            return None;
        }
        let ghost i0 = indices@;
        let mut t: usize = 0;
        while t < face.indices.len()
            invariant
                t <= face.indices@.len(),
                forall|j: int| 0 <= j < face.indices@.len() ==> #[trigger] face.indices@[j] < vc,
                vc <= u32::MAX - offset,
                indices@ == i0 + face.indices@.take(t as int).map_values(|i: u32| (i + offset) as u32),
                forall|j: int| 0 <= j < indices@.len() ==> #[trigger] indices@[j] < offset + vc,
            decreases face.indices@.len() - t,
        {
            let v = face.indices[t] + offset;
            indices.push(v);
            proof {
                assert(face.indices@.take(t + 1).map_values(|i: u32| (i + offset) as u32)
                    =~= face.indices@.take(t as int).map_values(|i: u32| (i + offset) as u32).push(v));
            }
            t = t + 1;
        }
        proof {
            assert(face.indices@.take(t as int) == face.indices@);
        }
        let ghost x0 = texture_ids@;
        let mut c: u32 = 0;
        while c < vc
            invariant
                c <= vc,
                texture_ids@ == x0 + Seq::new(c as nat, |q: int| face.texture_index),
            decreases vc - c,
        {
            texture_ids.push(face.texture_index);
            proof {
                assert(texture_ids@ =~= x0 + Seq::new((c + 1) as nat, |q: int| face.texture_index));
            }
            c = c + 1;
        }
        offset = offset + vc;
        k = k + 1;
    }
    Some(MeshIndices { indices, texture_ids, vertex_count: offset })
}

} // verus!
