use vstd::prelude::*;
use vstd::multiset::Multiset;
use crate::block_state::BlockState;
use crate::chunk::{ChunkData, PaletteEntry, decode_cells, raw_consistent};
use crate::errors::BlockStateError;
use crate::pos::{IVec3, index_to_xyz, index_xyz, BLOCKS_PER_CHUNK};
use crate::registry::Registry;

verus! {

broadcast use {
    vstd::multiset::group_multiset_axioms,
    vstd::multiset::group_multiset_properties,
    vstd::seq_lib::group_seq_properties,
};

/// Columns in a chunk: one height per `(x, z)`.
pub const BLOCKS_PER_GROUP: usize = 1024;

/// The terrain height of every column of one chunk, `z` major.
#[derive(Debug, Clone, PartialEq, Eq)]
pub struct HeightMapGroup(Vec<i32>);

impl HeightMapGroup {
    pub closed spec fn heights(&self) -> Seq<i32> {
        self.0@
    }

    pub open spec fn wf(&self) -> bool {
        self.heights().len() == BLOCKS_PER_GROUP
    }

    pub fn new(data: Vec<i32>) -> (r: HeightMapGroup)
        requires
            data@.len() == BLOCKS_PER_GROUP,
        ensures
            r.wf(),
            r.heights() == data@,
    {
        HeightMapGroup(data)
    }

    /// The height of column `(x, z)`.
    pub fn get(&self, x: usize, z: usize) -> (r: i32)
        requires
            self.wf(),
            x < 32,
            z < 32,
        ensures
            r == self.heights()[z * 32 + x],
    {
        self.get_index(Self::delinearize(x, z))
    }

    pub fn get_index(&self, index: usize) -> (r: i32)
        requires
            index < self.heights().len(),
        ensures
            r == self.heights()[index as int],
    {
        self.0[index]
    }

    /// The position of column `(x, z)` in the list.
    pub fn delinearize(x: usize, z: usize) -> (r: usize)
        requires
            x < 32,
            z < 32,
        ensures
            r == z * 32 + x,
    {
        32 * z + x
    }
}

/// A source of terrain heights.
pub trait HeightMapProvider {
    /// The height at world column `(x, z)`.
    fn get_height(&self, x: i32, z: i32) -> i32;

    /// The heights of every column of the chunk column `(chunk_x, chunk_z)`.
    fn get_chunk(&self, chunk_x: i32, chunk_z: i32) -> (r: HeightMapGroup)
        ensures
            r.wf();
}

/// Terrain at one constant height.
#[derive(Debug, Default)]
pub struct FlatHeightMap {
    height: i32,
}

impl FlatHeightMap {
    pub closed spec fn height_spec(&self) -> i32 {
        self.height
    }

    pub fn new(height: i32) -> (r: FlatHeightMap)
        ensures
            r.height_spec() == height,
    {
        FlatHeightMap { height }
    }
}

impl FlatHeightMap {
    /// The height of every column: the map's constant height.
    pub fn height(&self) -> (r: i32)
        ensures
            r == self.height_spec(),
    {
        self.height
    }

    /// The heights of one chunk column: every entry is the map's constant height.
    pub fn column(&self) -> (r: HeightMapGroup)
        ensures
            r.wf(),
            forall|i: int| 0 <= i < BLOCKS_PER_GROUP ==> #[trigger] r.heights()[i] == self.height_spec(),
    {
        let mut v: Vec<i32> = Vec::new();
        let mut i: usize = 0;
        while i < BLOCKS_PER_GROUP
            invariant
                i <= BLOCKS_PER_GROUP,
                v@.len() == i,
                forall|j: int| 0 <= j < i ==> #[trigger] v@[j] == self.height_spec(),
            decreases BLOCKS_PER_GROUP - i,
        {
            v.push(self.height);
            i = i + 1;
        }
        HeightMapGroup::new(v)
    }
}

impl HeightMapProvider for FlatHeightMap {
    fn get_height(&self, x: i32, z: i32) -> i32 {
        self.height()
    }

    fn get_chunk(&self, chunk_x: i32, chunk_z: i32) -> (r: HeightMapGroup) {
        self.column()
    }
}

/// The palette row of a cell at world height `y` in a column of height `h`: oak planks
/// over water level (height 0) above the ground, stone five or more below the surface,
/// dirt just below it, grass on it, air above.
pub open spec fn terrain_id(y: int, h: int) -> int {
    let diff = y - h;
    if diff > 0 && y == 0 {
        4
    } else if diff <= -5 {
        1
    } else if diff <= -1 {
        2
    } else if diff == 0 {
        3
    } else {
        0
    }
}

fn terrain_id_of(y: i64, h: i32) -> (r: usize)
    requires
        -0x100_0000_0000 <= y <= 0x100_0000_0000,
    ensures
        r == terrain_id(y as int, h as int),
        r < 5,
{
    let diff = y - h as i64;
    if diff > 0 && y == 0 {
        4
    } else if diff <= -5 {
        1
    } else if diff <= -1 {
        2
    } else if diff == 0 {
        3
    } else {
        0
    }
}

/// The block ids of the terrain palette, in row order.
pub open spec fn terrain_name(k: int) -> Seq<char> {
    if k == 0 {
        "air"@
    } else if k == 1 {
        "stone"@
    } else if k == 2 {
        "dirt"@
    } else if k == 3 {
        "grass_block"@
    } else {
        "oak_planks"@
    }
}

/// The world height of cell `i` of the chunk at height `chunk_y`.
pub open spec fn cell_world_y(chunk_y: int, i: int) -> int {
    32 * chunk_y + index_xyz(i).1
}

/// The column height of cell `i`.
pub open spec fn cell_height(heights: Seq<i32>, i: int) -> int {
    heights[index_xyz(i).2 * 32 + index_xyz(i).0] as int
}

/// Fills the chunk at `chunk_pos` from the column heights of its chunk column. Its palette
/// is air, stone, dirt, grass block and oak planks, in their registered default states;
/// each cell takes the row that [`terrain_id`] gives for its world height and its column's
/// height. Fails with `InvalidId` if one of those blocks is not registered.
pub fn noise_gen_function(chunk_pos: IVec3, block_reg: &Registry, heights: &HeightMapGroup) -> (r: Result<ChunkData, BlockStateError>)
    requires
        block_reg.wf(),
        heights.wf(),
    ensures
        r matches Ok(c) ==> {
            &&& c.wf()
            &&& !c.single_mode()
            &&& c.palette_seq().len() == 5
            &&& forall|k: int| 0 <= k < 5 ==> block_reg.has(terrain_name(k)) && (#[trigger] c.palette_seq()[k]).block@.id
                == terrain_name(k) && crate::block_state::normalizes(block_reg.block(terrain_name(k)).default_props(), c.palette_seq()[k].block@.props)
            &&& forall|i: int| 0 <= i < BLOCKS_PER_CHUNK ==> #[trigger] c.cells()[i] == terrain_id(
                cell_world_y(chunk_pos.y as int, i),
                cell_height(heights.heights(), i),
            )
        },
        r is Err ==> exists|k: int| 0 <= k < 5 && !block_reg.has(#[trigger] terrain_name(k)),
{
    let air = match BlockState::new("air", block_reg) {
        Ok(s) => s,
        Err(e) => {
            proof {
                assert(!block_reg.has(terrain_name(0)));
            }
            return Err(e);
        },
    };
    let stone = match BlockState::new("stone", block_reg) {
        Ok(s) => s,
        Err(e) => {
            proof {
                assert(!block_reg.has(terrain_name(1)));
            }
            return Err(e);
        },
    };
    let dirt = match BlockState::new("dirt", block_reg) {
        Ok(s) => s,
        Err(e) => {
            proof {
                assert(!block_reg.has(terrain_name(2)));
            }
            return Err(e);
        },
    };
    let grass = match BlockState::new("grass_block", block_reg) {
        Ok(s) => s,
        Err(e) => {
            proof {
                assert(!block_reg.has(terrain_name(3)));
            }
            return Err(e);
        },
    };
    let planks = match BlockState::new("oak_planks", block_reg) {
        Ok(s) => s,
        Err(e) => {
            proof {
                assert(!block_reg.has(terrain_name(4)));
            }
            return Err(e);
        },
    };
    let mut palette: Vec<PaletteEntry> = Vec::new();
    palette.push(PaletteEntry::new(air));
    palette.push(PaletteEntry::new(stone));
    palette.push(PaletteEntry::new(dirt));
    palette.push(PaletteEntry::new(grass));
    palette.push(PaletteEntry::new(planks));
    let ghost p0 = palette@;
    let base: i64 = 32 * (chunk_pos.y as i64);
    let mut data: Vec<u8> = Vec::new();
    let mut i: usize = 0;
    while i < BLOCKS_PER_CHUNK
        invariant
            heights.wf(),
            base == 32 * chunk_pos.y,
            i <= BLOCKS_PER_CHUNK,
            data@.len() == i,
            palette@.len() == 5,
            p0.len() == 5,
            forall|k: int| 0 <= k < 5 ==> (#[trigger] palette@[k]).block == p0[k].block,
            forall|j: int| 0 <= j < i ==> #[trigger] data@[j] as int == terrain_id(
                cell_world_y(chunk_pos.y as int, j),
                cell_height(heights.heights(), j),
            ),
            forall|k: int| 0 <= k < 5 ==> (#[trigger] palette@[k]).refs() == data@.map_values(|b: u8| b as int).to_multiset().count(k),
        decreases BLOCKS_PER_CHUNK - i,
    {
        let (x, y, z) = index_to_xyz(i);
        let h = heights.get(x, z);
        let id = terrain_id_of(base + y as i64, h);
        let ghost before = data@.map_values(|b: u8| b as int);
        proof {
            assert(before.to_multiset().count(id as int) <= before.len()) by {
                before.to_multiset_ensures();
            }
        }
        palette[id].ref_count = palette[id].ref_count + 1;
        data.push(id as u8);
        proof {
            let after = data@.map_values(|b: u8| b as int);
            assert(after =~= before.push(id as int));
            before.to_multiset_ensures();
        }
        i = i + 1;
    }
    proof {
        let cells = decode_cells(data@, false);
        assert(cells =~= data@.map_values(|b: u8| b as int));
        reveal_strlit("air");
        reveal_strlit("stone");
        reveal_strlit("dirt");
        reveal_strlit("grass_block");
        reveal_strlit("oak_planks");
        assert(raw_consistent(data@, palette@));
    }
    let c = ChunkData::with_data(data, palette);
    proof {
        assert forall|i: int| 0 <= i < BLOCKS_PER_CHUNK implies #[trigger] c.cells()[i] == terrain_id(
            cell_world_y(chunk_pos.y as int, i),
            cell_height(heights.heights(), i),
        ) by {
            assert(decode_cells(data@, false)[i] == data@[i] as int);
        }
    }
    Ok(c)
}

} // verus!
