use vstd::prelude::*;
use crate::block_state::BlockState;
use crate::chunk::{ChunkData, PaletteEntry};
use crate::pos::BLOCKS_PER_CHUNK;

verus! {

/// Bits per cell in the packed form of a chunk with a palette of `n` rows: enough for
/// every index, rounded up to a power of two.
pub open spec fn id_bits(n: int) -> u64 {
    if n <= 2 {
        1
    } else if n <= 4 {
        2
    } else if n <= 16 {
        4
    } else if n <= 256 {
        8
    } else {
        16
    }
}

/// The value in slot `k` of `word`, for slots of `b` bits.
pub open spec fn slot(word: u64, k: int, b: u64) -> int {
    ((word >> ((k * b) as u64)) & (((1u64 << b) - 1) as u64)) as int
}

/// The value of cell `i` of a packed cell array with `b` bits per cell.
pub open spec fn packed_cell(words: Seq<u64>, b: u64, i: int) -> int {
    let per = 64int / (b as int);
    slot(words[i / per], i % per, b)
}

/// A chunk's palette row and a packed one that say the same.
pub open spec fn same_row(e: PaletteEntry, p: PackedPaletteEntry) -> bool {
    e.refs() == p.ref_count && e.block@ == p.block@
}

/// One row of a packed chunk's palette.
#[derive(Debug, Clone)]
pub struct PackedPaletteEntry {
    pub ref_count: u16,
    pub block: BlockState,
}

/// A chunk's data with each cell in the fewest bits (a power of two) that its palette
/// needs, cells filling 64-bit words from the low bits up. Every palette row is kept,
/// free ones too, so that indices keep their meaning.
#[derive(Debug, Clone)]
pub struct PackedChunkData {
    pub palette: Vec<PackedPaletteEntry>,
    pub block_data: Vec<u64>,
    pub is_single: bool,
}

impl PackedChunkData {
    /// The palette index of every cell.
    pub open spec fn cells(&self) -> Seq<int> {
        if self.is_single {
            Seq::new(BLOCKS_PER_CHUNK as nat, |i: int| 0int)
        } else {
            Seq::new(
                BLOCKS_PER_CHUNK as nat,
                |i: int| packed_cell(self.block_data@, id_bits(self.palette@.len() as int), i),
            )
        }
    }

    /// The palette as rows of a chunk.
    pub open spec fn rows_match(&self, p: Seq<PaletteEntry>) -> bool {
        &&& p.len() == self.palette@.len()
        &&& forall|j: int| 0 <= j < p.len() ==> same_row(#[trigger] p[j], self.palette@[j])
    }

    /// The packed form is one that [`PackedChunkData::into_chunk`] accepts: its shape fits
    /// the palette, and the counts and indices are those of a well-formed chunk.
    pub open spec fn wf(&self) -> bool {
        let n = self.palette@.len();
        &&& 1 <= n <= BLOCKS_PER_CHUNK
        &&& if self.is_single {
            &&& n == 1
            &&& self.block_data@.len() == 0
            &&& self.palette@[0].ref_count == BLOCKS_PER_CHUNK
        } else {
            &&& self.block_data@.len() == 512 * id_bits(n as int)
            &&& forall|i: int| 0 <= i < BLOCKS_PER_CHUNK ==> 0 <= #[trigger] self.cells()[i] < n
            &&& forall|j: int| 0 <= j < n ==> #[trigger] self.palette@[j].ref_count == self.cells().to_multiset().count(j)
        }
    }
}

proof fn lemma_slot_insert(w: u64, v: u64, s: u64, b: u64, m: u64)
    requires
        1 <= b <= 16,
        s + b <= 64,
        m == (1u64 << b) - 1,
        v <= m,
        s < 64,
        w >> s == 0,
    ensures
        ((w | (v << s)) >> s) & m == v,
        s + b < 64 ==> (w | (v << s)) >> (s + b) == 0,
{
    assert(((w | (v << s)) >> s) & m == v) by (bit_vector)
        requires 1 <= b <= 16, s + b <= 64, m == (1u64 << b) - 1, v <= m, w >> s == 0, s < 64;
    assert(s + b < 64 ==> (w | (v << s)) >> (s + b) == 0) by (bit_vector)
        requires 1 <= b <= 16, s + b <= 64, m == (1u64 << b) - 1, v <= m, w >> s == 0, s < 64;
}

proof fn lemma_slot_keep(w: u64, v: u64, s: u64, t: u64, b: u64, m: u64)
    requires
        1 <= b <= 16,
        t + b <= s,
        s < 64,
        m == (1u64 << b) - 1,
        v <= m,
    ensures
        ((w | (v << s)) >> t) & m == (w >> t) & m,
{
    assert(((w | (v << s)) >> t) & m == (w >> t) & m) by (bit_vector)
        requires 1 <= b <= 16, t + b <= s, s < 64, m == (1u64 << b) - 1, v <= m;
}

proof fn lemma_mask_bound(x: u64, b: u64, m: u64)
    requires
        1 <= b <= 16,
        m == (1u64 << b) - 1,
    ensures
        x & m <= m,
        m < 65536,
        m + 1 == (1u64 << b),
{
    assert(x & m <= m) by (bit_vector);
    assert(m < 65536 && m + 1 == (1u64 << b)) by (bit_vector)
        requires 1 <= b <= 16, m == (1u64 << b) - 1;
}

/// Bits per cell for a palette of `n` rows.
fn id_bits_of(n: usize) -> (r: u64)
    ensures
        r == id_bits(n as int),
{
    if n <= 2 {
        1
    } else if n <= 4 {
        2
    } else if n <= 16 {
        4
    } else if n <= 256 {
        8
    } else {
        16
    }
}

proof fn lemma_bits_facts(b: u64)
    requires
        b == 1 || b == 2 || b == 4 || b == 8 || b == 16,
    ensures
        (64int / (b as int)) * (b as int) == 64,
        BLOCKS_PER_CHUNK as int == 512 * (b as int) * (64int / (b as int)),
        (1u64 << b) - 1 >= 1,
{
    if b == 1 {
        assert(64int / 1 == 64);
    } else if b == 2 {
        assert(64int / 2 == 32);
    } else if b == 4 {
        assert(64int / 4 == 16);
    } else if b == 8 {
        assert(64int / 8 == 8);
    } else {
        assert(64int / 16 == 4);
    }
    assert((1u64 << b) - 1 >= 1) by (bit_vector)
        requires b == 1 || b == 2 || b == 4 || b == 8 || b == 16;
}

proof fn lemma_index_split(w: int, k: int, per: int)
    requires
        per > 0,
        0 <= k < per,
        0 <= w,
    ensures
        (w * per + k) / per == w,
        (w * per + k) % per == k,
{
    vstd::arithmetic::div_mod::lemma_fundamental_div_mod_converse(w * per + k, per, w, k);
}

impl PackedChunkData {
    /// Packs `chunk`. A uniform chunk keeps its one row and no cell array.
    #[verifier::rlimit(50)]
    #[verifier::loop_isolation(false)]
    pub fn from_chunk(chunk: &ChunkData) -> (r: PackedChunkData)
        requires
            chunk.wf(),
        ensures
            r.wf(),
            r.is_single == chunk.single_mode(),
            r.rows_match(chunk.palette_seq()),
            r.cells() == chunk.cells(),
    {
        let src = chunk.palette_iter();
        let mut palette: Vec<PackedPaletteEntry> = Vec::new();
        let mut j: usize = 0;
        while j < src.len()
            invariant
                src@ == chunk.palette_seq(),
                j <= src@.len(),
                palette@.len() == j,
                forall|a: int| 0 <= a < j ==> same_row(src@[a], #[trigger] palette@[a]),
            decreases src@.len() - j,
        {
            let ghost p0 = palette@;
            let rc = src[j].get_ref_count();
            let bl = src[j].block.duplicate();
            assert(rc == src@[j as int].refs());
            assert(bl@ == src@[j as int].block@);
            palette.push(PackedPaletteEntry { ref_count: rc, block: bl });
            proof {
                assert(palette@[j as int].ref_count == rc);
                assert forall|a: int| 0 <= a < j + 1 implies same_row(src@[a], #[trigger] palette@[a]) by {
                    if a < j {
                        assert(palette@[a] == p0[a]);
                    }
                }
            }
            j = j + 1;
        }
        proof {
            chunk.lemma_ref_count_total();
            chunk.lemma_layout();
            chunk.lemma_cells_in_range();
        }
        if chunk.is_single() {
            let r = PackedChunkData { palette, block_data: Vec::new(), is_single: true };
            proof {
                assert(r.cells() =~= chunk.cells()) by {
                    assert forall|i: int| 0 <= i < BLOCKS_PER_CHUNK implies #[trigger] r.cells()[i] == chunk.cells()[i] by {
                        assert(0 <= chunk.cells()[i] < 1);
                    }
                }
                assert(same_row(src@[0], palette@[0]));
            }
            return r;
        }
        let n = palette.len();
        let b = id_bits_of(n);
        proof {
            lemma_bits_facts(b);
        }
        let per: usize = (64 / b) as usize;
        let words: usize = 512 * (b as usize);
        let mask: u64 = (1u64 << b) - 1;
        proof {
            lemma_mask_bound(0, b, mask);
        }
        let mut block_data: Vec<u64> = Vec::new();
        let mut w: usize = 0;
        while w < words
            invariant
                !chunk.single_mode(),
                chunk.wf(),
                n == chunk.palette_seq().len(),
                b == id_bits(n as int),
                b == 1 || b == 2 || b == 4 || b == 8 || b == 16,
                per as int == 64int / (b as int),
                per as int * b as int == 64,
                words as int == 512 * b as int,
                BLOCKS_PER_CHUNK as int == words as int * per as int,
                mask == (1u64 << b) - 1,
                mask < 65536,
                w <= words,
                block_data@.len() == w,
                forall|a: int, k: int| 0 <= a < w && 0 <= k < per ==> #[trigger] slot(block_data@[a], k, b) == chunk.cells()[a * per + k],
            decreases words - w,
        {
            let mut word: u64 = 0;
            let mut k: usize = 0;
            assert(0u64 >> 0u64 == 0u64) by (bit_vector);
            while k < per
                invariant
                    !chunk.single_mode(),
                    chunk.wf(),
                    n == chunk.palette_seq().len(),
                    b == id_bits(n as int),
                    b == 1 || b == 2 || b == 4 || b == 8 || b == 16,
                    per as int == 64int / (b as int),
                    per as int * b as int == 64,
                    BLOCKS_PER_CHUNK as int == words as int * per as int,
                    mask == (1u64 << b) - 1,
                    mask < 65536,
                    w < words,
                    k <= per,
                    (k as int) * (b as int) < 64 ==> word >> ((k * b as usize) as u64) == 0,
                    forall|kk: int| 0 <= kk < k ==> #[trigger] slot(word, kk, b) == chunk.cells()[w * per + kk],
                decreases per - k,
            {
                assert(k * (b as usize) < 64) by (nonlinear_arith)
                    requires k < per, per * b == 64;
                assert((w as int) * (per as int) + (k as int) < BLOCKS_PER_CHUNK) by (nonlinear_arith)
                    requires k < per, w < words, BLOCKS_PER_CHUNK == words * per;
                let i = w * per + k;
                let id = chunk.block_at_index(i);
                proof {
                    assert(chunk.cells()[i as int] == id);
                    assert(id < 65536);
                    assert(id as u64 <= mask) by {
                        lemma_id_fits(n as int, id as int, b, mask);
                    }
                }
                let v = id as u64;
                assert((k as int + 1) * (b as int) <= 64) by (nonlinear_arith)
                    requires k < per, per * b == 64;
                let s: u64 = (k as u64) * b;
                assert(s as int + b as int == (k as int + 1) * (b as int)) by (nonlinear_arith)
                    requires s == k * b;
                let ghost old_word = word;
                word = word | (v << s);
                proof {
                    lemma_slot_insert(old_word, v, s, b, mask);
                    assert(slot(word, k as int, b) == id);
                    assert forall|kk: int| 0 <= kk < k + 1 implies #[trigger] slot(word, kk, b) == chunk.cells()[w * per + kk] by {
                        if kk < k {
                            let t = (kk * b) as u64;
                            assert(kk * b + b <= k * b) by (nonlinear_arith)
                                requires kk < k, b >= 1;
                            lemma_slot_keep(old_word, v, s, t, b, mask);
                            assert(slot(old_word, kk, b) == chunk.cells()[w * per + kk]);
                        }
                    }
                    if ((k + 1) as int) * (b as int) < 64 {
                        assert((s + b) as int == ((k + 1) * b as usize) as int);
                    }
                }
                k = k + 1;
            }
            block_data.push(word);
            proof {
                assert forall|a: int, kk: int| 0 <= a < w + 1 && 0 <= kk < per implies #[trigger] slot(block_data@[a], kk, b) == chunk.cells()[a * per + kk] by {
                    if a == w {
                        assert(block_data@[a] == word);
                    }
                }
            }
            w = w + 1;
        }
        let r = PackedChunkData { palette, block_data, is_single: false };
        proof {
            assert forall|i: int| 0 <= i < BLOCKS_PER_CHUNK implies #[trigger] r.cells()[i] == chunk.cells()[i] by {
                let a = i / (per as int);
                let kk = i % (per as int);
                vstd::arithmetic::div_mod::lemma_fundamental_div_mod(i, per as int);
                assert(0 <= a < words) by (nonlinear_arith)
                    requires a == i / (per as int), 0 <= i < BLOCKS_PER_CHUNK, BLOCKS_PER_CHUNK == words * per, per > 0;
                assert(a * (per as int) + kk == i) by (nonlinear_arith)
                    requires a == i / (per as int), kk == i % (per as int), per > 0, i == (per as int) * (i / (per as int)) + i % (per as int);
                assert(slot(block_data@[a], kk, b) == chunk.cells()[a * (per as int) + kk]);
            }
            assert(r.cells() =~= chunk.cells());
            assert forall|jj: int| 0 <= jj < n implies #[trigger] r.palette@[jj].ref_count == r.cells().to_multiset().count(jj) by {
                assert(same_row(src@[jj], palette@[jj]));
            }
            chunk.lemma_cells_in_range();
        }
        r
    }

    /// Unpacks into a chunk with the same palette and cells. The cell array is one byte
    /// per cell for a palette of at most 256 rows, else two.
    #[verifier::rlimit(50)]
    #[verifier::loop_isolation(false)]
    pub fn into_chunk(self) -> (r: ChunkData)
        requires
            self.wf(),
        ensures
            r.wf(),
            r.single_mode() == self.is_single,
            self.rows_match(r.palette_seq()),
            r.cells() == self.cells(),
    {
        let ghost sp = self;
        let PackedChunkData { palette: packed, block_data, is_single } = self;
        let mut palette: Vec<PaletteEntry> = Vec::new();
        let mut j: usize = 0;
        while j < packed.len()
            invariant
                packed@ == sp.palette@,
                j <= packed@.len(),
                palette@.len() == j,
                forall|a: int| 0 <= a < j ==> same_row(#[trigger] palette@[a], packed@[a]),
            decreases packed@.len() - j,
        {
            let ghost p0 = palette@;
            palette.push(PaletteEntry::with_ref_count(packed[j].block.duplicate(), packed[j].ref_count));
            proof {
                assert forall|a: int| 0 <= a < j + 1 implies same_row(#[trigger] palette@[a], packed@[a]) by {
                    if a < j {
                        assert(palette@[a] == p0[a]);
                    }
                }
            }
            j = j + 1;
        }
        if is_single {
            let state = palette[0].block.duplicate();
            let r = ChunkData::single(state);
            proof {
                assert(r.cells() =~= sp.cells()) by {
                    r.lemma_cells_in_range();
                    assert forall|i: int| 0 <= i < BLOCKS_PER_CHUNK implies #[trigger] r.cells()[i] == sp.cells()[i] by {
                        assert(0 <= r.cells()[i] < 1);
                    }
                }
            }
            return r;
        }
        let n = palette.len();
        let b = id_bits_of(n);
        proof {
            lemma_bits_facts(b);
        }
        let per: usize = (64 / b) as usize;
        let words: usize = 512 * (b as usize);
        let mask: u64 = (1u64 << b) - 1;
        let double = n > 256;
        proof {
            lemma_mask_bound(0, b, mask);
        }
        let mut data: Vec<u8> = Vec::new();
        let mut w: usize = 0;
        while w < words
            invariant
                !sp.is_single,
                sp.wf(),
                block_data@ == sp.block_data@,
                n == sp.palette@.len(),
                b == id_bits(n as int),
                b == 1 || b == 2 || b == 4 || b == 8 || b == 16,
                per as int == 64int / (b as int),
                per as int * b as int == 64,
                words as int == 512 * b as int,
                BLOCKS_PER_CHUNK as int == words as int * per as int,
                mask == (1u64 << b) - 1,
                mask < 65536,
                double == (n > 256),
                w <= words,
                data@.len() == (if double { 2 * (w * per) } else { w * per }),
                forall|i: int| 0 <= i < w * per ==> #[trigger] crate::chunk::decode_cell(data@, double, i) == sp.cells()[i],
            decreases words - w,
        {
            assert(w < block_data@.len());
            let word = block_data[w];
            let mut k: usize = 0;
            while k < per
                invariant
                    !sp.is_single,
                    sp.wf(),
                    block_data@ == sp.block_data@,
                    word == block_data@[w as int],
                    n == sp.palette@.len(),
                    b == id_bits(n as int),
                    b == 1 || b == 2 || b == 4 || b == 8 || b == 16,
                    per as int == 64int / (b as int),
                    per as int * b as int == 64,
                    BLOCKS_PER_CHUNK as int == words as int * per as int,
                    mask == (1u64 << b) - 1,
                    mask < 65536,
                    double == (n > 256),
                    w < words,
                    k <= per,
                    data@.len() == (if double { 2 * (w * per + k) } else { w * per + k }),
                    forall|i: int| 0 <= i < w * per + k ==> #[trigger] crate::chunk::decode_cell(data@, double, i) == sp.cells()[i],
                decreases per - k,
            {
                assert(k * (b as usize) < 64) by (nonlinear_arith)
                    requires k < per, per * b == 64;
                assert((w as int) * (per as int) + (k as int) < BLOCKS_PER_CHUNK) by (nonlinear_arith)
                    requires k < per, w < words, BLOCKS_PER_CHUNK == words * per;
                let s: u64 = (k as u64) * b;
                let id: u64 = (word >> s) & mask;
                proof {
                    lemma_mask_bound(word >> s, b, mask);
                    let i = (w * per + k) as int;
                    lemma_index_split(w as int, k as int, per as int);
                    assert(sp.cells()[i] == packed_cell(sp.block_data@, b, i));
                    assert(sp.cells()[i] == id);
                    assert(id < n);
                }
                let ghost d0 = data@;
                if double {
                    data.push((id % 256) as u8);
                    data.push((id / 256) as u8);
                    proof {
                        assert((id % 256) as u8 as int + 256 * ((id / 256) as u8 as int) == id) by (nonlinear_arith)
                            requires id < 65536;
                    }
                } else {
                    data.push(id as u8);
                }
                proof {
                    let i0 = (w * per + k) as int;
                    assert forall|i: int| 0 <= i < i0 + 1 implies #[trigger] crate::chunk::decode_cell(data@, double, i) == sp.cells()[i] by {
                        if i < i0 {
                            assert(crate::chunk::decode_cell(data@, double, i) == crate::chunk::decode_cell(d0, double, i));
                        }
                    }
                    assert(w * per + k + 1 == w * per + (k + 1));
                }
                k = k + 1;
            }
            proof {
                assert((w + 1) * per == w * per + per) by (nonlinear_arith);
                assert(data@.len() == (if double { 2 * ((w + 1) * per) } else { (w + 1) * per }));
            }
            w = w + 1;
        }
        proof {
            assert(data@.len() == (if double { 65536int } else { 32768int }));
            let cells = crate::chunk::decode_cells(data@, double);
            assert(cells =~= sp.cells()) by {
                assert forall|i: int| 0 <= i < BLOCKS_PER_CHUNK implies #[trigger] cells[i] == sp.cells()[i] by {}
            }
            assert forall|a: int| 0 <= a < n implies #[trigger] palette@[a].refs() == cells.to_multiset().count(a) by {}
        }
        let r = ChunkData::with_data(data, palette);
        r
    }
}

proof fn lemma_id_fits(n: int, id: int, b: u64, mask: u64)
    requires
        0 <= id < n,
        n <= BLOCKS_PER_CHUNK,
        b == id_bits(n),
        mask == (1u64 << b) - 1,
    ensures
        id <= mask,
{
    assert(b == 1 ==> mask == 1) by (bit_vector)
        requires mask == (1u64 << b) - 1;
    assert(b == 2 ==> mask == 3) by (bit_vector)
        requires mask == (1u64 << b) - 1;
    assert(b == 4 ==> mask == 15) by (bit_vector)
        requires mask == (1u64 << b) - 1;
    assert(b == 8 ==> mask == 255) by (bit_vector)
        requires mask == (1u64 << b) - 1;
    assert(b == 16 ==> mask == 65535) by (bit_vector)
        requires mask == (1u64 << b) - 1;
}

/// Packing then unpacking gives back a chunk with the same mode, palette and cells.
pub proof fn lemma_pack_round_trip(c: ChunkData, p: PackedChunkData, u: ChunkData)
    requires
        c.wf(),
        p.is_single == c.single_mode(),
        p.rows_match(c.palette_seq()),
        p.cells() == c.cells(),
        u.single_mode() == p.is_single,
        p.rows_match(u.palette_seq()),
        u.cells() == p.cells(),
    ensures
        u.single_mode() == c.single_mode(),
        u.cells() == c.cells(),
        u.palette_seq().len() == c.palette_seq().len(),
        forall|j: int| 0 <= j < c.palette_seq().len() ==> #[trigger] u.palette_seq()[j].refs() == c.palette_seq()[j].refs()
            && u.palette_seq()[j].block@ == c.palette_seq()[j].block@,
        u.states() == c.states(),
{
    assert forall|j: int| 0 <= j < c.palette_seq().len() implies #[trigger] u.palette_seq()[j].refs() == c.palette_seq()[j].refs()
        && u.palette_seq()[j].block@ == c.palette_seq()[j].block@ by {
        assert(same_row(c.palette_seq()[j], p.palette@[j]));
        assert(same_row(u.palette_seq()[j], p.palette@[j]));
    }
    assert forall|i: int| 0 <= i < BLOCKS_PER_CHUNK implies #[trigger] u.states()[i] == c.states()[i] by {
        assert(u.cells()[i] == c.cells()[i]);
        c.lemma_cells_in_range();
        assert(0 <= c.cells()[i] < c.palette_seq().len());
        assert(same_row(u.palette_seq()[c.cells()[i]], p.palette@[c.cells()[i]]));
        assert(same_row(c.palette_seq()[c.cells()[i]], p.palette@[c.cells()[i]]));
    }
    assert(u.states() =~= c.states());
}

} // verus!
