use vstd::prelude::*;
use vstd::multiset::Multiset;
use crate::block_state::{BlockState, BlockStateView};
use crate::errors::ChunkError;
use crate::pos::{IVec3, xyz_to_index, cell_index, BLOCKS_PER_CHUNK};

verus! {

broadcast use {
    vstd::multiset::group_multiset_axioms,
    vstd::multiset::group_multiset_properties,
    vstd::seq_lib::group_seq_properties,
};

/// Number of cells in a two-byte-wide cell array.
pub const DOUBLE_BLOCKS_PER_CHUNK: usize = 65536;

/// Largest palette that one byte per cell can address.
pub const SINGLE_BYTE_PALETTE: usize = 256;

/// One row of a chunk's palette: a block state and the number of cells that use it.
/// A row with no users is free and may be recycled.
#[derive(Debug, Clone)]
pub struct PaletteEntry {
    pub ref_count: u16,
    pub block: BlockState,
}

impl PaletteEntry {
    /// The number of cells that use this row.
    pub open spec fn refs(&self) -> nat {
        self.ref_count as nat
    }

    pub fn new(state: BlockState) -> (r: PaletteEntry)
        ensures
            r.refs() == 0,
            r.block@ == state@,
    {
        PaletteEntry { block: state, ref_count: 0 }
    }

    /// A row for `state` already used by `ref_count` cells.
    pub fn with_ref_count(state: BlockState, ref_count: u16) -> (r: PaletteEntry)
        ensures
            r.refs() == ref_count,
            r.block@ == state@,
    {
        PaletteEntry { block: state, ref_count }
    }

    pub fn get_ref_count(&self) -> (r: u16)
        ensures
            r == self.refs(),
    {
        self.ref_count
    }

    pub fn is_free(&self) -> (r: bool)
        ensures
            r == (self.refs() == 0),
    {
        self.ref_count == 0
    }

    pub fn increment_ref_count(&mut self)
        requires
            old(self).refs() < 65535,
        ensures
            final(self).refs() == old(self).refs() + 1,
            final(self).block == old(self).block,
    {
        self.ref_count = self.ref_count + 1;
    }

    pub fn decrement_ref_count(&mut self)
        requires
            old(self).refs() > 0,
        ensures
            final(self).refs() == old(self).refs() - 1,
            final(self).block == old(self).block,
    {
        self.ref_count = self.ref_count - 1;
    }

    /// A copy of this row.
    pub fn duplicate(&self) -> (r: PaletteEntry)
        ensures
            r.refs() == self.refs(),
            r.block@ == self.block@,
    {
        PaletteEntry { ref_count: self.ref_count, block: self.block.duplicate() }
    }
}

/// The value of cell `i` in a cell array of the given width.
pub open spec fn decode_cell(data: Seq<u8>, double: bool, i: int) -> int {
    if double {
        data[2 * i] as int + 256 * data[2 * i + 1] as int
    } else {
        data[i] as int
    }
}

/// The palette index of every cell of a cell array.
pub open spec fn decode_cells(data: Seq<u8>, double: bool) -> Seq<int> {
    Seq::new(BLOCKS_PER_CHUNK as nat, |i: int| decode_cell(data, double, i))
}

/// How many cells refer to each palette index below `n`, added up.
pub open spec fn count_sum(m: Multiset<int>, n: nat) -> nat
    decreases n,
{
    if n == 0 {
        0
    } else {
        count_sum(m, (n - 1) as nat) + m.count(n - 1)
    }
}

/// The reference counts of the first `n` palette rows, added up.
pub open spec fn ref_sum(p: Seq<PaletteEntry>, n: nat) -> nat
    decreases n,
{
    if n == 0 {
        0
    } else {
        ref_sum(p, (n - 1) as nat) + p[n - 1].refs()
    }
}

/// Every cell refers to a row of the palette, and each row counts exactly its cells.
pub open spec fn counts_match(palette: Seq<PaletteEntry>, cells: Seq<int>) -> bool {
    &&& forall|i: int| 0 <= i < cells.len() ==> 0 <= #[trigger] cells[i] < palette.len()
    &&& forall|j: int|
        0 <= j < palette.len() ==> #[trigger] palette[j].refs() == cells.to_multiset().count(j)
}

/// A cell array and palette that [`ChunkData::with_data`] accepts.
pub open spec fn raw_consistent(data: Seq<u8>, palette: Seq<PaletteEntry>) -> bool {
    let double = palette.len() > SINGLE_BYTE_PALETTE;
    &&& data.len() == (if double { DOUBLE_BLOCKS_PER_CHUNK } else { BLOCKS_PER_CHUNK })
    &&& palette.len() <= BLOCKS_PER_CHUNK
    &&& counts_match(palette, decode_cells(data, double))
}

proof fn lemma_count_sum_insert(m: Multiset<int>, v: int, n: nat)
    ensures
        count_sum(m.insert(v), n) == count_sum(m, n) + (if 0 <= v < n { 1nat } else { 0nat }),
    decreases n,
{
    if n > 0 {
        lemma_count_sum_insert(m, v, (n - 1) as nat);
    }
}

proof fn lemma_count_sum_all(s: Seq<int>, n: nat)
    requires
        forall|i: int| 0 <= i < s.len() ==> 0 <= #[trigger] s[i] < n,
    ensures
        count_sum(s.to_multiset(), n) == s.len(),
    decreases s.len(),
{
    if s.len() == 0 {
        assert(s.to_multiset() =~= Multiset::empty());
        lemma_count_sum_zero(n);
    } else {
        let t = s.drop_last();
        assert(s == t.push(s.last()));
        lemma_count_sum_all(t, n);
        t.to_multiset_ensures();
        lemma_count_sum_insert(t.to_multiset(), s.last(), n);
    }
}

proof fn lemma_count_sum_zero(n: nat)
    ensures
        count_sum(Multiset::<int>::empty(), n) == 0,
    decreases n,
{
    if n > 0 {
        lemma_count_sum_zero((n - 1) as nat);
    }
}

proof fn lemma_ref_sum_counts(p: Seq<PaletteEntry>, m: Multiset<int>, n: nat)
    requires
        n <= p.len(),
        forall|j: int| 0 <= j < n ==> #[trigger] p[j].refs() == m.count(j),
    ensures
        ref_sum(p, n) == count_sum(m, n),
    decreases n,
{
    if n > 0 {
        lemma_ref_sum_counts(p, m, (n - 1) as nat);
    }
}

proof fn lemma_ref_sum_lower(p: Seq<PaletteEntry>, n: nat)
    requires
        n <= p.len(),
        forall|j: int| 0 <= j < n ==> #[trigger] p[j].refs() >= 1,
    ensures
        ref_sum(p, n) >= n,
    decreases n,
{
    if n > 0 {
        lemma_ref_sum_lower(p, (n - 1) as nat);
    }
}

proof fn lemma_ref_sum_lower_one_more(p: Seq<PaletteEntry>, n: nat, a: int)
    requires
        n <= p.len(),
        0 <= a < n,
        p[a].refs() >= 2,
        forall|j: int| 0 <= j < n ==> #[trigger] p[j].refs() >= 1,
    ensures
        ref_sum(p, n) >= n + 1,
    decreases n,
{
    if a == n - 1 {
        lemma_ref_sum_lower(p, (n - 1) as nat);
    } else {
        lemma_ref_sum_lower_one_more(p, (n - 1) as nat, a);
    }
}

/// Palette-compressed storage of the cells of one chunk.
///
/// In single mode the whole chunk is the palette's only block and no cell array exists.
/// In dense mode each cell holds a palette index in one byte, or in two bytes (low byte
/// first) once the palette has grown past 256 rows.
#[derive(Debug, Clone)]
pub struct ChunkData {
    palette: Vec<PaletteEntry>,
    data: Vec<u8>,
    is_single: bool,
    double_bytes: bool,
}

impl ChunkData {
    pub closed spec fn single_mode(&self) -> bool {
        self.is_single
    }

    pub closed spec fn double_width(&self) -> bool {
        self.double_bytes
    }

    pub closed spec fn palette_seq(&self) -> Seq<PaletteEntry> {
        self.palette@
    }

    pub closed spec fn raw(&self) -> Seq<u8> {
        self.data@
    }

    /// The palette index of cell `i`.
    pub closed spec fn cell(&self, i: int) -> int {
        if self.is_single {
            0
        } else {
            decode_cell(self.data@, self.double_bytes, i)
        }
    }

    /// The palette index of every cell.
    pub open spec fn cells(&self) -> Seq<int> {
        Seq::new(BLOCKS_PER_CHUNK as nat, |i: int| self.cell(i))
    }

    /// The block state of cell `i`.
    pub open spec fn state_at(&self, i: int) -> BlockStateView {
        self.palette_seq()[self.cell(i)].block@
    }

    /// The block state of every cell.
    pub open spec fn states(&self) -> Seq<BlockStateView> {
        Seq::new(BLOCKS_PER_CHUNK as nat, |i: int| self.state_at(i))
    }

    /// The representation's shape: the cell array's length fits the mode and the width,
    /// and every cell refers to a palette row.
    pub closed spec fn layout_ok(&self) -> bool {
        &&& 1 <= self.palette@.len() <= BLOCKS_PER_CHUNK
        &&& if self.is_single {
            &&& self.palette@.len() == 1
            &&& self.data@.len() == 0
            &&& !self.double_bytes
        } else {
            &&& self.double_bytes == (self.palette@.len() > SINGLE_BYTE_PALETTE)
            &&& self.data@.len() == (if self.double_bytes {
                DOUBLE_BLOCKS_PER_CHUNK
            } else {
                BLOCKS_PER_CHUNK
            })
        }
        &&& forall|i: int| 0 <= i < BLOCKS_PER_CHUNK ==> 0 <= #[trigger] self.cell(i) < self.palette@.len()
    }

    /// Well-formed: the layout holds and each palette row counts exactly the cells that use it.
    pub open spec fn wf(&self) -> bool {
        &&& self.layout_ok()
        &&& forall|j: int|
            0 <= j < self.palette_seq().len() ==> #[trigger] self.palette_seq()[j].refs()
                == self.cells().to_multiset().count(j)
    }

    /// The sum of all rows' reference counts.
    pub open spec fn ref_total(&self) -> nat {
        ref_sum(self.palette_seq(), self.palette_seq().len())
    }

    pub proof fn lemma_cells_in_range(&self)
        requires
            self.layout_ok(),
        ensures
            forall|i: int|
                0 <= i < self.cells().len() ==> 0 <= #[trigger] self.cells()[i]
                    < self.palette_seq().len(),
    {
        assert forall|i: int| 0 <= i < self.cells().len() implies 0 <= #[trigger] self.cells()[i]
            < self.palette_seq().len() by {
            assert(self.cells()[i] == self.cell(i));
        }
    }

    /// Builds a dense chunk from a cell array and a palette made together.
    /// The cell array is one byte per cell for a palette of at most 256 rows, else two.
    pub fn with_data(data: Vec<u8>, palette: Vec<PaletteEntry>) -> (r: ChunkData)
        requires
            raw_consistent(data@, palette@),
        ensures
            r.wf(),
            !r.single_mode(),
            r.double_width() == (palette@.len() > SINGLE_BYTE_PALETTE),
            r.palette_seq() == palette@,
            r.raw() == data@,
            r.cells() == decode_cells(data@, palette@.len() > SINGLE_BYTE_PALETTE),
    {
        let double_bytes = palette.len() > SINGLE_BYTE_PALETTE;
        let r = ChunkData { palette, data, double_bytes, is_single: false };
        proof {
            let cells = decode_cells(data@, double_bytes);
            assert(r.cells() =~= cells);
            assert forall|i: int| 0 <= i < BLOCKS_PER_CHUNK implies 0 <= #[trigger] r.cell(i)
                < r.palette@.len() by {
                assert(cells[i] == r.cell(i));
            }
            assert(0 <= r.cell(0) < r.palette@.len());
        }
        r
    }

    /// A uniform chunk: every cell is `state`. No cell array is allocated.
    pub fn single(state: BlockState) -> (r: ChunkData)
        ensures
            r.wf(),
            r.single_mode(),
            r.palette_seq().len() == 1,
            r.palette_seq()[0].refs() == BLOCKS_PER_CHUNK,
            r.palette_seq()[0].block@ == state@,
            r.raw().len() == 0,
            !r.double_width(),
            forall|i: int| 0 <= i < BLOCKS_PER_CHUNK ==> #[trigger] r.state_at(i) == state@,
    {
        let mut palette: Vec<PaletteEntry> = Vec::new();
        palette.push(PaletteEntry::with_ref_count(state, 32768));
        let r = ChunkData { data: Vec::new(), double_bytes: false, palette, is_single: true };
        proof {
            let z = Seq::new(BLOCKS_PER_CHUNK as nat, |i: int| 0int);
            assert(r.cells() =~= z);
            lemma_constant_count(BLOCKS_PER_CHUNK as nat);
            assert(r.palette@[0].refs() == 32768);
            assert(r.cells().to_multiset().count(0) == 32768);
            assert(r.layout_ok());
            assert forall|j: int| 0 <= j < r.palette_seq().len() implies #[trigger] r.palette_seq()[j].refs()
                == r.cells().to_multiset().count(j) by {
                assert(j == 0);
            }
        }
        r
    }

    pub fn is_single(&self) -> (r: bool)
        ensures
            r == self.single_mode(),
    {
        self.is_single
    }

    /// Whether the chunk is uniformly the empty block.
    pub fn is_empty(&self) -> (r: bool)
        requires
            self.wf(),
        ensures
            r == (self.single_mode() && self.palette_seq()[0].block@.id == crate::block_state::air_id()),
    {
        self.is_single && self.palette[0].block.is_air()
    }

    /// Whether the chunk's cells take two bytes each.
    pub fn is_double_width(&self) -> (r: bool)
        ensures
            r == self.double_width(),
    {
        self.double_bytes
    }

    /// The palette index of the cell at `(x, y, z)`.
    pub fn block_at(&self, x: usize, y: usize, z: usize) -> (r: Result<usize, ChunkError>)
        requires
            self.wf(),
        ensures
            in_chunk(x, y, z) ==> r == Ok::<usize, ChunkError>(
                self.cell(cell_index(x as int, y as int, z as int)) as usize,
            ),
            !in_chunk(x, y, z) ==> r == Err::<usize, ChunkError>(out_of_bounds(x, y, z)),
    {
        if x >= 32 || y >= 32 || z >= 32 {
            return Err(out_of_bounds_error(x, y, z));
        }
        let index = xyz_to_index(x, y, z);
        Ok(self.block_at_index(index))
    }

    /// The palette index of cell `index` of the flat cell array.
    pub fn block_at_index(&self, index: usize) -> (r: usize)
        requires
            self.layout_ok(),
            index < BLOCKS_PER_CHUNK,
        ensures
            r == self.cell(index as int),
            r < self.palette_seq().len(),
    {
        assert(0 <= self.cell(index as int) < self.palette@.len());
        if self.is_single {
            return 0;
        }
        if self.double_bytes {
            let scaled_index = index * 2;
            (self.data[scaled_index + 1] as usize) * 256 + (self.data[scaled_index] as usize)
        } else {
            self.data[index] as usize
        }
    }

    /// The palette rows.
    pub fn palette_iter(&self) -> (r: &Vec<PaletteEntry>)
        ensures
            r@ == self.palette_seq(),
    {
        &self.palette
    }

    pub fn palette_len(&self) -> (r: usize)
        ensures
            r == self.palette_seq().len(),
    {
        self.palette.len()
    }

    /// The palette row at `index`.
    pub fn lookup_palette(&self, index: usize) -> (r: Result<&PaletteEntry, ChunkError>)
        requires
            index < self.palette_seq().len(),
        ensures
            r matches Ok(e) && *e == self.palette_seq()[index as int],
    {
        Ok(&self.palette[index])
    }

    /// The layout of a chunk: between 1 and 32768 palette rows; in single mode one row and
    /// no cell array; in dense mode one byte per cell for at most 256 rows, else two (low
    /// byte first); every cell names a row.
    pub proof fn lemma_layout(&self)
        requires
            self.layout_ok(),
        ensures
            1 <= self.palette_seq().len() <= BLOCKS_PER_CHUNK,
            self.single_mode() ==> self.palette_seq().len() == 1 && self.raw().len() == 0 && !self.double_width(),
            !self.single_mode() ==> self.double_width() == (self.palette_seq().len() > SINGLE_BYTE_PALETTE)
                && self.raw().len() == (if self.double_width() { DOUBLE_BLOCKS_PER_CHUNK } else { BLOCKS_PER_CHUNK }),
            forall|i: int| 0 <= i < BLOCKS_PER_CHUNK ==> #[trigger] self.cell(i) == (if self.single_mode() {
                0
            } else {
                decode_cell(self.raw(), self.double_width(), i)
            }) && 0 <= self.cell(i) < self.palette_seq().len(),
    {
    }

    /// Every well-formed chunk's reference counts add up to the number of cells; a uniform
    /// chunk's only row counts every cell.
    pub proof fn lemma_ref_count_total(&self)
        requires
            self.wf(),
        ensures
            self.ref_total() == BLOCKS_PER_CHUNK,
            self.single_mode() ==> self.palette_seq().len() == 1 && self.palette_seq()[0].refs()
                == BLOCKS_PER_CHUNK,
    {
        let n = self.palette_seq().len();
        self.lemma_cells_in_range();
        lemma_count_sum_all(self.cells(), n);
        lemma_ref_sum_counts(self.palette_seq(), self.cells().to_multiset(), n);
        if self.is_single {
            assert(ref_sum(self.palette_seq(), 0) == 0);
            assert(ref_sum(self.palette_seq(), 1) == self.palette_seq()[0].refs());
        }
    }

    /// Rewrites cell `index` to palette index `block_id`, leaving the counts alone.
    pub fn set_raw(&mut self, index: usize, block_id: usize)
        requires
            old(self).layout_ok(),
            !old(self).single_mode(),
            index < BLOCKS_PER_CHUNK,
            block_id < old(self).palette_seq().len(),
        ensures
            final(self).layout_ok(),
            !final(self).single_mode(),
            final(self).double_width() == old(self).double_width(),
            final(self).palette_seq() == old(self).palette_seq(),
            final(self).cells() == old(self).cells().update(index as int, block_id as int),
    {
        let ghost old_self = *self;
        if self.double_bytes {
            let lsb = (block_id % 256) as u8;
            let msb = (block_id / 256) as u8;
            assert(lsb as int + 256 * msb as int == block_id) by (nonlinear_arith)
                requires lsb == block_id % 256, msb == block_id / 256, block_id < 65536;
            let scaled_index = index * 2;
            self.data.set(scaled_index, lsb);
            self.data.set(scaled_index + 1, msb);
        } else {
            self.data.set(index, block_id as u8);
        }
        proof {
            assert forall|i: int| 0 <= i < BLOCKS_PER_CHUNK implies #[trigger] self.cell(i) == (if i
                == index { block_id as int } else { old_self.cell(i) }) by {}
            assert(self.cells() =~= old_self.cells().update(index as int, block_id as int));
        }
    }

    /// Turns a uniform chunk into a dense one with the same cells.
    fn make_dense(&mut self)
        requires
            old(self).wf(),
            old(self).single_mode(),
        ensures
            final(self).wf(),
            !final(self).single_mode(),
            final(self).palette_seq() == old(self).palette_seq(),
            final(self).cells() == old(self).cells(),
    {
        let ghost old_self = *self;
        let mut data: Vec<u8> = Vec::with_capacity(BLOCKS_PER_CHUNK);
        let mut i: usize = 0;
        while i < BLOCKS_PER_CHUNK
            invariant
                i <= BLOCKS_PER_CHUNK,
                data@.len() == i,
                forall|j: int| 0 <= j < i ==> #[trigger] data@[j] == 0,
            decreases BLOCKS_PER_CHUNK - i,
        {
            data.push(0);
            i = i + 1;
        }
        self.data = data;
        self.is_single = false;
        proof {
            assert forall|i: int| 0 <= i < BLOCKS_PER_CHUNK implies #[trigger] self.cell(i) == old_self.cell(i) by {
                assert(old_self.cell(i) == 0);
                assert(self.data@[i] == 0);
            }
            assert(self.cells() =~= old_self.cells());
            assert(self.layout_ok());
            assert forall|j: int| 0 <= j < self.palette_seq().len() implies #[trigger] self.palette_seq()[j].refs()
                == self.cells().to_multiset().count(j) by {
                assert(self.palette_seq()[j] == old_self.palette_seq()[j]);
            }
        }
    }

    /// Widens the cell array from one byte per cell to two, keeping every cell's value.
    fn grow_data(&mut self)
        requires
            !old(self).single_mode(),
            !old(self).double_width(),
            old(self).raw().len() == BLOCKS_PER_CHUNK,
        ensures
            !final(self).single_mode(),
            final(self).double_width(),
            final(self).raw().len() == DOUBLE_BLOCKS_PER_CHUNK,
            final(self).palette_seq() == old(self).palette_seq(),
            forall|i: int| 0 <= i < BLOCKS_PER_CHUNK ==> #[trigger] final(self).cell(i) == old(self).cell(i),
    {
        let mut new_vec: Vec<u8> = Vec::with_capacity(DOUBLE_BLOCKS_PER_CHUNK);
        let mut i: usize = 0;
        while i < BLOCKS_PER_CHUNK
            invariant
                i <= BLOCKS_PER_CHUNK,
                self.data@.len() == BLOCKS_PER_CHUNK,
                new_vec@.len() == 2 * i,
                forall|j: int| 0 <= j < i ==> #[trigger] new_vec@[2 * j] == self.data@[j] && new_vec@[2 * j + 1] == 0,
            decreases BLOCKS_PER_CHUNK - i,
        {
            let ghost prev = new_vec@;
            new_vec.push(self.data[i]);
            new_vec.push(0);
            proof {
                assert forall|j: int| 0 <= j < i + 1 implies #[trigger] new_vec@[2 * j] == self.data@[j] && new_vec@[2 * j + 1] == 0 by {
                    if j < i {
                        assert(new_vec@[2 * j] == prev[2 * j]);
                        assert(new_vec@[2 * j + 1] == prev[2 * j + 1]);
                    }
                }
            }
            i = i + 1;
        }
        self.data = new_vec;
        self.double_bytes = true;
    }

    /// Adds a row to the palette and returns its index: the first row equal to `entry` if
    /// there is one; else the first free row, replaced by `entry`; else a new last row,
    /// widening the cell array when the palette outgrows one byte.
    pub fn add_palette(&mut self, entry: PaletteEntry) -> (r: usize)
        requires
            old(self).layout_ok(),
            !old(self).single_mode() || exists|j: int|
                0 <= j < old(self).palette_seq().len() && #[trigger] same_entry(old(self).palette_seq()[j], entry),
            old(self).palette_seq().len() < BLOCKS_PER_CHUNK || exists|j: int|
                0 <= j < old(self).palette_seq().len() && #[trigger] old(self).palette_seq()[j].refs() == 0,
        ensures
            final(self).layout_ok(),
            final(self).single_mode() == old(self).single_mode(),
            !final(self).single_mode() ==> final(self).double_width() == (final(self).palette_seq().len() > SINGLE_BYTE_PALETTE)
                && final(self).raw().len() == (if final(self).double_width() { DOUBLE_BLOCKS_PER_CHUNK } else { BLOCKS_PER_CHUNK }),
            final(self).cells() == old(self).cells(),
            r < final(self).palette_seq().len(),
            same_entry(final(self).palette_seq()[r as int], entry),
            ({
                let p = old(self).palette_seq();
                let n = p.len();
                if exists|j: int| 0 <= j < n && #[trigger] same_entry(p[j], entry) {
                    &&& r < n
                    &&& same_entry(p[r as int], entry)
                    &&& forall|j: int| 0 <= j < r ==> !#[trigger] same_entry(p[j], entry)
                    &&& *final(self) == *old(self)
                } else if exists|j: int| 0 <= j < n && #[trigger] p[j].refs() == 0 {
                    &&& r < n
                    &&& p[r as int].refs() == 0
                    &&& forall|j: int| 0 <= j < r ==> #[trigger] p[j].refs() != 0
                    &&& final(self).palette_seq() == p.update(r as int, entry)
                } else {
                    &&& r == n
                    &&& final(self).palette_seq() == p.push(entry)
                }
            }),
            old(self).wf() && entry.refs() == 0 ==> final(self).wf(),
    {
        let ghost old_self = *self;
        let ghost p = self.palette@;
        let mut i: usize = 0;
        while i < self.palette.len()
            invariant
                *self == old_self,
                old_self == *old(self),
                old_self.layout_ok(),
                p == old_self.palette@,
                i <= p.len(),
                forall|j: int| 0 <= j < i ==> !#[trigger] same_entry(p[j], entry),
            decreases p.len() - i,
        {
            if self.palette[i].ref_count == entry.ref_count && self.palette[i].block.same_as(&entry.block) {
                return i;
            }
            i = i + 1;
        }
        proof {
            assert(!self.is_single);
        }
        if let Some(i) = self.first_free_palette() {
            self.palette.set(i, entry);
            proof {
                assert forall|k: int| 0 <= k < BLOCKS_PER_CHUNK implies #[trigger] self.cell(k) == old_self.cell(k) by {}
                assert(self.cells() =~= old_self.cells());
                assert(self.layout_ok());
                if old_self.wf() && entry.refs() == 0 {
                    assert(old_self.cells().to_multiset().count(i as int) == 0);
                }
            }
            return i;
        }
        if self.palette.len() == SINGLE_BYTE_PALETTE {
            self.grow_data();
        }
        let ghost mid = *self;
        self.palette.push(entry);
        proof {
            assert forall|k: int| 0 <= k < BLOCKS_PER_CHUNK implies #[trigger] self.cell(k) == old_self.cell(k) by {
                assert(self.cell(k) == mid.cell(k));
            }
            assert(self.cells() =~= old_self.cells());
            assert(self.layout_ok());
            old_self.lemma_cells_in_range();
            if old_self.wf() && entry.refs() == 0 {
                let m = old_self.cells().to_multiset();
                if m.count(p.len() as int) > 0 {
                    assert(old_self.cells().contains(p.len() as int));
                }
            }
        }
        self.palette.len() - 1
    }

    /// The block state of the cell at `(x, y, z)`.
    pub fn get_block(&self, x: usize, y: usize, z: usize) -> (r: Result<BlockState, ChunkError>)
        requires
            self.wf(),
        ensures
            in_chunk(x, y, z) ==> (r matches Ok(b) && b@ == self.state_at(
                cell_index(x as int, y as int, z as int),
            )),
            !in_chunk(x, y, z) ==> r == Err::<BlockState, ChunkError>(out_of_bounds(x, y, z)),
    {
        if x >= 32 || y >= 32 || z >= 32 {
            return Err(out_of_bounds_error(x, y, z));
        }
        let id = self.block_at_index(xyz_to_index(x, y, z));
        Ok(self.palette[id].block.duplicate())
    }

    /// Writes `block` into the cell at `(x, y, z)` and returns the state it held.
    ///
    /// The outgoing row loses one reference; the incoming state reuses its row if the
    /// palette has one, else takes the first free row, else a new row. A uniform chunk
    /// becomes dense on its first differing write. Writing a cell's own state changes nothing.
    #[verifier::loop_isolation(false)]
    pub fn set_block(&mut self, x: usize, y: usize, z: usize, block: BlockState) -> (r: Result<
        BlockState,
        ChunkError,
    >)
        requires
            old(self).wf(),
        ensures
            final(self).wf(),
            !in_chunk(x, y, z) ==> r == Err::<BlockState, ChunkError>(out_of_bounds(x, y, z))
                && *final(self) == *old(self),
            in_chunk(x, y, z) ==> (r matches Ok(b) && b@ == old(self).state_at(
                cell_index(x as int, y as int, z as int),
            )),
            in_chunk(x, y, z) ==> final(self).states() == old(self).states().update(
                cell_index(x as int, y as int, z as int),
                block@,
            ),
            in_chunk(x, y, z) && old(self).state_at(cell_index(x as int, y as int, z as int))
                == block@ ==> *final(self) == *old(self),
            in_chunk(x, y, z) && old(self).state_at(cell_index(x as int, y as int, z as int))
                != block@ ==> !final(self).single_mode(),
            final(self).single_mode() ==> old(self).single_mode(),
            old(self).palette_seq().len() <= SINGLE_BYTE_PALETTE < final(self).palette_seq().len()
                ==> final(self).double_width(),
            in_chunk(x, y, z) && old(self).state_at(cell_index(x as int, y as int, z as int))
                != block@ ==> rows_after_write(
                old(self).palette_seq(),
                old(self).cells()[cell_index(x as int, y as int, z as int)],
                block@,
                final(self).palette_seq(),
                final(self).cells()[cell_index(x as int, y as int, z as int)],
            ) && final(self).cells() == old(self).cells().update(
                cell_index(x as int, y as int, z as int),
                final(self).cells()[cell_index(x as int, y as int, z as int)],
            ),
    {
        if x >= 32 || y >= 32 || z >= 32 {
            return Err(out_of_bounds_error(x, y, z));
        }
        let ghost old_self = *self;
        let index = xyz_to_index(x, y, z);
        let old_id = self.block_at_index(index);
        if self.palette[old_id].block.same_as(&block) {
            return Ok(block);
        }
        if self.is_single {
            self.make_dense();
        }
        let ghost dense = *self;
        let ghost cells0 = self.cells();
        let ghost m = cells0.to_multiset();
        let ghost p0 = self.palette@;
        let ghost n = p0.len();
        proof {
            assert(cells0[index as int] == old_id);
            lemma_rewrite_counts(cells0, index as int, 0);
            assert(p0[old_id as int].refs() >= 1);
            assert(cells0 == old_self.cells());
            assert(p0 == old_self.palette_seq());
            assert forall|i: int| 0 <= i < BLOCKS_PER_CHUNK implies #[trigger] old_self.state_at(i)
                == dense.state_at(i) by {
                assert(old_self.cells()[i] == dense.cells()[i]);
            }
        }
        let ret = self.palette[old_id].block.duplicate();
        self.palette[old_id].ref_count = self.palette[old_id].ref_count - 1;
        let ghost p1 = self.palette@;
        let mut i: usize = 0;
        while i < self.palette.len()
            invariant
                self.palette@ == p1,
                self.data == dense.data,
                self.is_single == dense.is_single,
                self.double_bytes == dense.double_bytes,
                p1.len() == n,
                i <= n,
                forall|j: int| 0 <= j < i ==> #[trigger] p1[j].block@ != block@,
            decreases n - i,
        {
            if self.palette[i].block.same_as(&block) {
                proof {
                    assert(i != old_id);
                    assert(p1[i as int] == p0[i as int]);
                    lemma_count_le(cells0, i as int);
                    assert(dense.palette_seq()[i as int].refs() == m.count(i as int));
                }
                self.palette[i].ref_count = self.palette[i].ref_count + 1;
                proof {
                    assert(self.layout_ok()) by {
                        assert forall|k: int| 0 <= k < BLOCKS_PER_CHUNK implies 0 <= #[trigger] self.cell(k) < self.palette@.len() by {
                            assert(self.cell(k) == dense.cell(k));
                        }
                    }
                    assert(self.cells() =~= cells0) by {
                        assert forall|k: int| 0 <= k < BLOCKS_PER_CHUNK implies #[trigger] self.cell(k) == dense.cell(k) by {}
                    }
                }
                self.set_raw(index, i);
                proof {
                    self.lemma_write_done(dense, index as int, old_id as int, i as int, block@);
                    let q1 = decremented(p0, old_id as int);
                    assert(p1 =~= q1);
                    assert(self.palette@ =~= q1.update(i as int, PaletteEntry { ref_count: (q1[i as int].ref_count + 1) as u16, block: q1[i as int].block }));
                    assert forall|j: int| 0 <= j < i implies #[trigger] p0[j].block@ != block@ by {
                        assert(p1[j].block == p0[j].block);
                    }
                    assert(self.cells()[index as int] == i);
                }
                return Ok(ret);
            }
            i = i + 1;
        }
        proof {
            assert(self.layout_ok()) by {
                assert forall|k: int| 0 <= k < BLOCKS_PER_CHUNK implies 0 <= #[trigger] self.cell(k) < self.palette@.len() by {
                    assert(self.cell(k) == dense.cell(k));
                }
            }
            assert(self.cells() =~= cells0) by {
                assert forall|k: int| 0 <= k < BLOCKS_PER_CHUNK implies #[trigger] self.cell(k) == dense.cell(k) by {}
            }
            if !(exists|j: int| 0 <= j < n && #[trigger] p1[j].refs() == 0) {
                dense.lemma_cells_in_range();
                lemma_count_sum_all(cells0, n);
                lemma_ref_sum_counts(p0, m, n);
                assert forall|j: int| 0 <= j < n implies #[trigger] p0[j].refs() >= 1 by {
                    assert(p1[j].refs() != 0);
                    if j != old_id {
                        assert(p1[j] == p0[j]);
                    }
                }
                assert(p1[old_id as int].refs() != 0);
                lemma_ref_sum_lower_one_more(p0, n, old_id as int);
            }
        }
        let entry = PaletteEntry::new(block);
        proof {
            assert(forall|j: int| 0 <= j < n ==> !#[trigger] same_entry(p1[j], entry));
        }
        let block_id = self.add_palette(entry);
        proof {
            assert(self.palette@[block_id as int].refs() == 0);
        }
        let ghost added = *self;
        self.palette[block_id].ref_count = 1;
        proof {
            assert(self.cells() =~= cells0) by {
                assert forall|k: int| 0 <= k < BLOCKS_PER_CHUNK implies #[trigger] self.cell(k) == added.cell(k) by {}
                assert(added.cells() == cells0);
            }
            assert(self.layout_ok()) by {
                assert forall|k: int| 0 <= k < BLOCKS_PER_CHUNK implies 0 <= #[trigger] self.cell(k) < self.palette@.len() by {
                    assert(self.cells()[k] == cells0[k]);
                }
            }
        }
        let ghost before_write = *self;
        self.set_raw(index, block_id);
        proof {
            self.lemma_write_done(dense, index as int, old_id as int, block_id as int, block@);
            let q1 = decremented(p0, old_id as int);
            assert(p1 =~= q1);
            assert(!(exists|j: int| 0 <= j < n && #[trigger] p0[j].block@ == block@)) by {
                if exists|j: int| 0 <= j < n && #[trigger] p0[j].block@ == block@ {
                    let j = choose|j: int| 0 <= j < n && #[trigger] p0[j].block@ == block@;
                    assert(p1[j].block == p0[j].block);
                }
            }
            assert(self.cells()[index as int] == block_id);
        }
        Ok(ret)
    }

    /// After a one-cell write from `dense` (cell `k`, from row `a` to row `b`), the counts
    /// and the rows' blocks given here make the chunk well-formed with the new state in `k`.
    proof fn lemma_write_done(&self, dense: ChunkData, k: int, a: int, b: int, bv: BlockStateView)
        requires
            dense.wf(),
            self.layout_ok(),
            0 <= k < BLOCKS_PER_CHUNK,
            dense.cells()[k] == a,
            self.cells() == dense.cells().update(k, b),
            dense.palette_seq().len() <= self.palette_seq().len(),
            0 <= b < self.palette_seq().len(),
            self.palette_seq()[b].block@ == bv,
            forall|j: int|
                0 <= j < self.palette_seq().len() ==> #[trigger] self.palette_seq()[j].refs() == (if j
                    < dense.palette_seq().len() {
                    dense.palette_seq()[j].refs() as int
                } else {
                    0int
                }) + (if j == b { 1int } else { 0int }) - (if j == a { 1int } else { 0int }),
            forall|j: int|
                0 <= j < dense.palette_seq().len() && j != b ==> #[trigger] self.palette_seq()[j].block@
                    == dense.palette_seq()[j].block@,
            b < dense.palette_seq().len() ==> (self.palette_seq()[b].block@
                == dense.palette_seq()[b].block@ || dense.palette_seq()[b].refs() == (if b == a {
                1nat
            } else {
                0nat
            })),
        ensures
            self.wf(),
            self.states() == dense.states().update(k, bv),
    {
        let c0 = dense.cells();
        let m = c0.to_multiset();
        lemma_rewrite_counts(c0, k, b);
        dense.lemma_cells_in_range();
        assert forall|j: int| 0 <= j < self.palette_seq().len() implies #[trigger] self.palette_seq()[j].refs()
            == self.cells().to_multiset().count(j) by {
            if j >= dense.palette_seq().len() {
                c0.to_multiset_ensures();
                if m.count(j) > 0 {
                    assert(c0.contains(j));
                }
            }
        }
        assert forall|i: int| 0 <= i < BLOCKS_PER_CHUNK implies #[trigger] self.states()[i] == dense.states().update(k, bv)[i] by {
            assert(self.cells()[i] == self.cell(i));
            assert(c0[i] == dense.cell(i));
            if i != k {
                let c = c0[i];
                if c == b && self.palette_seq()[b].block@ != dense.palette_seq()[b].block@ {
                    if b == a {
                        lemma_two_positions(c0, i, k);
                    } else {
                        c0.to_multiset_ensures();
                        assert(c0.contains(c));
                    }
                }
            }
        }
        assert(self.states() =~= dense.states().update(k, bv));
    }

    /// A copy of this chunk's data with the same palette and cells.
    pub fn snapshot(&self) -> (r: ChunkData)
        requires
            self.wf(),
        ensures
            r.wf(),
            r.single_mode() == self.single_mode(),
            r.cells() == self.cells(),
            r.states() == self.states(),
            r.palette_seq().len() == self.palette_seq().len(),
    {
        let mut palette: Vec<PaletteEntry> = Vec::new();
        let mut i: usize = 0;
        while i < self.palette.len()
            invariant
                i <= self.palette@.len(),
                palette@.len() == i,
                forall|j: int| 0 <= j < i ==> #[trigger] palette@[j].refs() == self.palette@[j].refs()
                    && palette@[j].block@ == self.palette@[j].block@,
            decreases self.palette@.len() - i,
        {
            palette.push(self.palette[i].duplicate());
            i = i + 1;
        }
        let mut data: Vec<u8> = Vec::new();
        let mut k: usize = 0;
        while k < self.data.len()
            invariant
                k <= self.data@.len(),
                data@ == self.data@.take(k as int),
            decreases self.data@.len() - k,
        {
            data.push(self.data[k]);
            proof {
                assert(self.data@.take(k + 1) == self.data@.take(k as int).push(self.data@[k as int]));
            }
            k = k + 1;
        }
        proof {
            assert(self.data@.take(self.data@.len() as int) == self.data@);
        }
        let r = ChunkData { palette, data, is_single: self.is_single, double_bytes: self.double_bytes };
        proof {
            assert forall|i: int| 0 <= i < BLOCKS_PER_CHUNK implies #[trigger] r.cell(i) == self.cell(i) by {}
            assert(r.cells() =~= self.cells());
            assert forall|i: int| 0 <= i < BLOCKS_PER_CHUNK implies #[trigger] r.state_at(i) == self.state_at(i) by {
                assert(r.cells()[i] == self.cells()[i]);
                let c = self.cell(i);
                assert(0 <= c < self.palette@.len());
                assert(r.palette@[c].refs() == self.palette@[c].refs());
                assert(r.palette@[c].block@ == self.palette@[c].block@);
            }
            assert(r.states() =~= self.states());
            assert forall|j: int| 0 <= j < r.palette_seq().len() implies #[trigger] r.palette_seq()[j].refs()
                == r.cells().to_multiset().count(j) by {
                assert(self.palette_seq()[j].refs() == self.cells().to_multiset().count(j));
            }
        }
        r
    }

    /// The index of the first free palette row, if any.
    pub fn first_free_palette(&self) -> (r: Option<usize>)
        ensures
            r matches Some(i) ==> i < self.palette_seq().len() && self.palette_seq()[i as int].refs()
                == 0 && forall|j: int| 0 <= j < i ==> #[trigger] self.palette_seq()[j].refs() != 0,
            r is None ==> forall|j: int|
                0 <= j < self.palette_seq().len() ==> #[trigger] self.palette_seq()[j].refs() != 0,
    {
        let mut i: usize = 0;
        while i < self.palette.len()
            invariant
                i <= self.palette@.len(),
                forall|j: int| 0 <= j < i ==> #[trigger] self.palette@[j].refs() != 0,
            decreases self.palette@.len() - i,
        {
            if self.palette[i].is_free() {
                return Some(i);
            }
            i = i + 1;
        }
        None
    }
}

proof fn lemma_count_le(s: Seq<int>, v: int)
    ensures
        s.to_multiset().count(v) <= s.len(),
{
    s.to_multiset_ensures();
}

proof fn lemma_rewrite_counts(s: Seq<int>, k: int, b: int)
    requires
        0 <= k < s.len(),
    ensures
        s.to_multiset().count(s[k]) >= 1,
        forall|j: int| #[trigger] s.update(k, b).to_multiset().count(j) == s.to_multiset().count(j)
            + (if j == b { 1int } else { 0int }) - (if j == s[k] { 1int } else { 0int }),
{
    s.to_multiset_ensures();
    assert(s.contains(s[k]));
    vstd::seq_lib::to_multiset_update(s, k, b);
}

proof fn lemma_two_positions(s: Seq<int>, i: int, k: int)
    requires
        0 <= i < s.len(),
        0 <= k < s.len(),
        i != k,
        s[i] == s[k],
    ensures
        s.to_multiset().count(s[k]) >= 2,
{
    s.to_multiset_ensures();
    let t = s.remove(k);
    t.to_multiset_ensures();
    if i < k {
        assert(t[i] == s[i]);
        assert(t.contains(s[k]));
    } else {
        assert(t[i - 1] == s[i]);
        assert(t.contains(s[k]));
    }
    assert(t.to_multiset() =~= s.to_multiset().remove(s[k]));
    assert(s.to_multiset().remove(s[k]).count(s[k]) >= 1);
}

/// A write followed by a read of the same cell gives back what was written: the state
/// [`ChunkData::set_block`] leaves in cell `k` is the one [`ChunkData::get_block`] reports.
pub proof fn lemma_set_then_get(before: ChunkData, after: ChunkData, k: int, s: BlockStateView)
    requires
        0 <= k < BLOCKS_PER_CHUNK,
        after.states() == before.states().update(k, s),
    ensures
        after.state_at(k) == s,
        forall|i: int| 0 <= i < BLOCKS_PER_CHUNK && i != k ==> #[trigger] after.state_at(i) == before.state_at(i),
{
    assert(after.states()[k] == after.state_at(k));
    assert forall|i: int| 0 <= i < BLOCKS_PER_CHUNK && i != k implies #[trigger] after.state_at(i) == before.state_at(i) by {
        assert(after.states()[i] == after.state_at(i));
        assert(before.states()[i] == before.state_at(i));
    }
}

/// A uniform chunk of state `a` that takes one differing write `s` at cell `k` is dense
/// afterwards, holds `s` at `k` and `a` everywhere else.
pub proof fn lemma_single_to_dense(before: ChunkData, after: ChunkData, k: int, a: BlockStateView, s: BlockStateView)
    requires
        before.single_mode(),
        forall|i: int| 0 <= i < BLOCKS_PER_CHUNK ==> #[trigger] before.state_at(i) == a,
        0 <= k < BLOCKS_PER_CHUNK,
        s != a,
        after.states() == before.states().update(k, s),
        before.state_at(k) != s ==> !after.single_mode(),
    ensures
        !after.single_mode(),
        after.state_at(k) == s,
        forall|i: int| 0 <= i < BLOCKS_PER_CHUNK && i != k ==> #[trigger] after.state_at(i) == a,
{
    lemma_set_then_get(before, after, k, s);
}

/// Palette `p` with row `a` counting one cell fewer.
pub open spec fn decremented(p: Seq<PaletteEntry>, a: int) -> Seq<PaletteEntry> {
    p.update(a, PaletteEntry { ref_count: (p[a].ref_count - 1) as u16, block: p[a].block })
}

/// The palette rows after one cell moves from row `a` of palette `p0` to a state `s` that
/// row `a` does not hold, the new state landing in row `b` of palette `p`: the first row
/// already holding `s` gains a reference; failing that, the first free row takes `s` with
/// one reference; failing that, a new last row does. Row `a` loses one reference.
pub open spec fn rows_after_write(p0: Seq<PaletteEntry>, a: int, s: BlockStateView, p: Seq<PaletteEntry>, b: int) -> bool {
    let p1 = decremented(p0, a);
    let n = p0.len();
    if exists|j: int| 0 <= j < n && #[trigger] p0[j].block@ == s {
        &&& 0 <= b < n
        &&& p0[b].block@ == s
        &&& forall|j: int| 0 <= j < b ==> #[trigger] p0[j].block@ != s
        &&& p == p1.update(b, PaletteEntry { ref_count: (p1[b].ref_count + 1) as u16, block: p1[b].block })
    } else if exists|j: int| 0 <= j < n && #[trigger] p1[j].refs() == 0 {
        &&& 0 <= b < n
        &&& p1[b].refs() == 0
        &&& forall|j: int| 0 <= j < b ==> #[trigger] p1[j].refs() != 0
        &&& p.len() == n
        &&& forall|j: int| 0 <= j < n && j != b ==> #[trigger] p[j] == p1[j]
        &&& p[b].refs() == 1 && p[b].block@ == s
    } else {
        &&& b == n
        &&& p.len() == n + 1
        &&& forall|j: int| 0 <= j < n ==> #[trigger] p[j] == p1[j]
        &&& p[b].refs() == 1 && p[b].block@ == s
    }
}

/// Two palette rows with the same count and the same block state.
pub open spec fn same_entry(a: PaletteEntry, b: PaletteEntry) -> bool {
    a.ref_count == b.ref_count && a.block@ == b.block@
}

/// Whether `(x, y, z)` is a coordinate inside a chunk.
pub open spec fn in_chunk(x: usize, y: usize, z: usize) -> bool {
    x < 32 && y < 32 && z < 32
}

/// The error for the local coordinate `(x, y, z)` outside a chunk.
pub open spec fn out_of_bounds(x: usize, y: usize, z: usize) -> ChunkError {
    ChunkError::OutOfBounds(IVec3 { x: x as i32, y: y as i32, z: z as i32 })
}

fn out_of_bounds_error(x: usize, y: usize, z: usize) -> (r: ChunkError)
    ensures
        r == out_of_bounds(x, y, z),
{
    ChunkError::OutOfBounds(IVec3 { x: x as i32, y: y as i32, z: z as i32 })
}

proof fn lemma_constant_count(n: nat)
    ensures
        Seq::new(n, |i: int| 0int).to_multiset().count(0) == n,
    decreases n,
{
    let s = Seq::new(n, |i: int| 0int);
    if n > 0 {
        let t = Seq::new((n - 1) as nat, |i: int| 0int);
        assert(s =~= t.push(0));
        t.to_multiset_ensures();
        lemma_constant_count((n - 1) as nat);
    } else {
        assert(s.to_multiset() =~= Multiset::empty());
    }
}


/// How far a chunk's generation has come. Only the first and the last are reached today.
#[derive(Debug, Clone, Copy, PartialEq, Eq, Structural)]
pub enum ChunkGenerationStatus {
    NotGenerated,
    AfterTerrain,
    AfterDecorations,
    Generated,
}

/// A chunk of the world: its position, its data once generated, and the handle of its
/// visual representation.
#[derive(Debug)]
pub struct Chunk {
    pos: IVec3,
    data: Option<ChunkData>,
    chunk_entity: u64,
    generation_status: ChunkGenerationStatus,
}

/// The flat index of a local position.
pub open spec fn local_index(p: IVec3) -> int {
    cell_index(p.x as int, p.y as int, p.z as int)
}

/// Whether a local position lies inside a chunk: every coordinate in `[0, 32)`.
pub open spec fn local_in_chunk(p: IVec3) -> bool {
    0 <= p.x < 32 && 0 <= p.y < 32 && 0 <= p.z < 32
}

/// The error for a local position outside a chunk.
pub open spec fn local_out_of_bounds(p: IVec3) -> ChunkError {
    ChunkError::OutOfBounds(p)
}

impl Chunk {
    pub closed spec fn pos_spec(&self) -> IVec3 {
        self.pos
    }

    pub closed spec fn data_spec(&self) -> Option<ChunkData> {
        self.data
    }

    pub closed spec fn entity_spec(&self) -> u64 {
        self.chunk_entity
    }

    pub closed spec fn status_spec(&self) -> ChunkGenerationStatus {
        self.generation_status
    }

    /// Data present exactly when generated, and well-formed.
    pub open spec fn wf(&self) -> bool {
        &&& (self.data_spec() is Some) == (self.status_spec() == ChunkGenerationStatus::Generated)
        &&& (self.data_spec() matches Some(d) ==> d.wf())
    }

    pub open spec fn initialized(&self) -> bool {
        self.data_spec() is Some && self.status_spec() == ChunkGenerationStatus::Generated
    }

    /// A chunk at `pos` with no data yet, shown through the visual handle `chunk_entity`.
    pub fn new(pos: IVec3, chunk_entity: u64) -> (r: Chunk)
        ensures
            r.wf(),
            r.pos_spec() == pos,
            r.entity_spec() == chunk_entity,
            r.data_spec() is None,
            r.status_spec() == ChunkGenerationStatus::NotGenerated,
    {
        Chunk { pos, data: None, chunk_entity, generation_status: ChunkGenerationStatus::NotGenerated }
    }

    /// The chunk's data, or `Uninitialized` before it is installed.
    pub fn get_data(&self) -> (r: Result<&ChunkData, ChunkError>)
        ensures
            self.data_spec() matches Some(d) ==> r == Ok::<&ChunkData, ChunkError>(&d),
            self.data_spec() is None ==> r == Err::<&ChunkData, ChunkError>(ChunkError::Uninitialized(self.pos_spec())),
    {
        match &self.data {
            Some(d) => Ok(d),
            None => Err(ChunkError::Uninitialized(self.pos)),
        }
    }

    /// Writes `state` at the local position `pos`; see [`ChunkData::set_block`].
    pub fn set_block(&mut self, pos: IVec3, state: BlockState) -> (r: Result<BlockState, ChunkError>)
        requires
            old(self).wf(),
        ensures
            final(self).wf(),
            final(self).pos_spec() == old(self).pos_spec(),
            final(self).entity_spec() == old(self).entity_spec(),
            final(self).status_spec() == old(self).status_spec(),
            final(self).data_spec() is Some == old(self).data_spec() is Some,
            !old(self).initialized() ==> r == Err::<BlockState, ChunkError>(ChunkError::Uninitialized(old(self).pos_spec()))
                && *final(self) == *old(self),
            old(self).initialized() && !local_in_chunk(pos) ==> r == Err::<BlockState, ChunkError>(local_out_of_bounds(pos))
                && *final(self) == *old(self),
            old(self).initialized() && local_in_chunk(pos) ==> (r matches Ok(b) && b@
                == old(self).data_spec().unwrap().state_at(local_index(pos))),
            old(self).initialized() && local_in_chunk(pos) ==> final(self).data_spec().unwrap().states()
                == old(self).data_spec().unwrap().states().update(local_index(pos), state@),
            old(self).initialized() && local_in_chunk(pos) && old(self).data_spec().unwrap().state_at(local_index(pos)) == state@
                ==> *final(self) == *old(self),
    {
        if !self.is_initialized() {
            return Err(ChunkError::Uninitialized(self.pos));
        }
        if pos.x < 0 || pos.x >= 32 || pos.y < 0 || pos.y >= 32 || pos.z < 0 || pos.z >= 32 {
            return Err(ChunkError::OutOfBounds(pos));
        }
        match &mut self.data {
            Some(d) => d.set_block(pos.x as usize, pos.y as usize, pos.z as usize, state),
            None => Err(ChunkError::Uninitialized(self.pos)),
        }
    }

    /// Reads the state at the local position `pos`; see [`ChunkData::get_block`].
    pub fn get_block(&self, pos: IVec3) -> (r: Result<BlockState, ChunkError>)
        requires
            self.wf(),
        ensures
            !self.initialized() ==> r == Err::<BlockState, ChunkError>(ChunkError::Uninitialized(self.pos_spec())),
            self.initialized() && !local_in_chunk(pos) ==> r == Err::<BlockState, ChunkError>(local_out_of_bounds(pos)),
            self.initialized() && local_in_chunk(pos) ==> (r matches Ok(b) && b@
                == self.data_spec().unwrap().state_at(local_index(pos))),
    {
        if !self.is_initialized() {
            return Err(ChunkError::Uninitialized(self.pos));
        }
        if pos.x < 0 || pos.x >= 32 || pos.y < 0 || pos.y >= 32 || pos.z < 0 || pos.z >= 32 {
            return Err(ChunkError::OutOfBounds(pos));
        }
        match &self.data {
            Some(d) => d.get_block(pos.x as usize, pos.y as usize, pos.z as usize),
            None => Err(ChunkError::Uninitialized(self.pos)),
        }
    }

    pub fn get_pos(&self) -> (r: IVec3)
        ensures
            r == self.pos_spec(),
    {
        self.pos
    }

    pub fn get_generation_status(&self) -> (r: ChunkGenerationStatus)
        ensures
            r == self.status_spec(),
    {
        self.generation_status
    }

    /// Whether the chunk's data is installed and generation is complete.
    pub fn is_initialized(&self) -> (r: bool)
        ensures
            r == self.initialized(),
    {
        self.data.is_some() && match self.generation_status {
            ChunkGenerationStatus::Generated => true,
            _ => false,
        }
    }

    /// The handle of the chunk's visual representation.
    pub fn get_entity(&self) -> (r: u64)
        ensures
            r == self.entity_spec(),
    {
        self.chunk_entity
    }

    /// Installs generated data; fails with `AlreadyInitialized` if data is already there.
    pub fn init_data(&mut self, data: ChunkData) -> (r: Result<(), ChunkError>)
        requires
            old(self).wf(),
            data.wf(),
        ensures
            final(self).wf(),
            final(self).pos_spec() == old(self).pos_spec(),
            final(self).entity_spec() == old(self).entity_spec(),
            old(self).data_spec() is Some ==> r == Err::<(), ChunkError>(ChunkError::AlreadyInitialized(old(self).pos_spec()))
                && *final(self) == *old(self),
            old(self).data_spec() is None ==> r is Ok && final(self).data_spec() == Some(data)
                && final(self).status_spec() == ChunkGenerationStatus::Generated,
    {
        if self.data.is_some() {
            return Err(ChunkError::AlreadyInitialized(self.pos));
        }
        self.data = Some(data);
        self.generation_status = ChunkGenerationStatus::Generated;
        Ok(())
    }
}

} // verus!
