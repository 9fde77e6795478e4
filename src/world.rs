use vstd::prelude::*;
use crate::block_state::BlockState;
use crate::chunk::{Chunk, ChunkData, local_index, local_in_chunk};
use crate::errors::{ChunkError, WorldError};
use crate::pos::{IVec3, Direction, can_step, stepped};

verus! {

/// Every loaded chunk, by position. A position holds at most one chunk.
#[derive(Debug)]
pub struct ChunkMap {
    data: Vec<Chunk>,
}

impl ChunkMap {
    pub closed spec fn chunks(&self) -> Seq<Chunk> {
        self.data@
    }

    pub open spec fn wf(&self) -> bool {
        &&& forall|i: int, j: int|
            0 <= i < j < self.chunks().len() ==> (#[trigger] self.chunks()[i]).pos_spec()
                != (#[trigger] self.chunks()[j]).pos_spec()
        &&& forall|i: int| 0 <= i < self.chunks().len() ==> (#[trigger] self.chunks()[i]).wf()
    }

    /// Whether a chunk is loaded at `p`.
    pub open spec fn contains(&self, p: IVec3) -> bool {
        exists|i: int| 0 <= i < self.chunks().len() && (#[trigger] self.chunks()[i]).pos_spec() == p
    }

    pub open spec fn index_of(&self, p: IVec3) -> int {
        choose|i: int| 0 <= i < self.chunks().len() && (#[trigger] self.chunks()[i]).pos_spec() == p
    }

    /// The chunk loaded at `p`.
    pub open spec fn chunk(&self, p: IVec3) -> Chunk {
        self.chunks()[self.index_of(p)]
    }

    /// Whether a chunk is loaded at `p` and its data is installed.
    pub open spec fn ready_at(&self, p: IVec3) -> bool {
        self.contains(p) && self.chunk(p).initialized()
    }

    /// The data of the chunk at `p`.
    pub open spec fn data_at(&self, p: IVec3) -> ChunkData {
        self.chunk(p).data_spec().unwrap()
    }

    /// The chunk at position `i` of the map is the one that [`ChunkMap::chunk`] names.
    pub proof fn lemma_index(&self, p: IVec3, i: int)
        requires
            self.wf(),
            0 <= i < self.chunks().len(),
            self.chunks()[i].pos_spec() == p,
        ensures
            self.contains(p),
            self.index_of(p) == i,
            self.chunk(p) == self.chunks()[i],
    {
        let c = self.index_of(p);
        if c != i {
            if c < i {
                assert(self.chunks()[c].pos_spec() != self.chunks()[i].pos_spec());
            } else {
                assert(self.chunks()[i].pos_spec() != self.chunks()[c].pos_spec());
            }
        }
    }

    pub fn new() -> (r: ChunkMap)
        ensures
            r.wf(),
            r.chunks().len() == 0,
    {
        ChunkMap { data: Vec::new() }
    }

    pub fn len(&self) -> (r: usize)
        ensures
            r == self.chunks().len(),
    {
        self.data.len()
    }

    /// The position in the map of the chunk at `pos`, if one is loaded.
    fn find(&self, pos: &IVec3) -> (r: Option<usize>)
        requires
            self.wf(),
        ensures
            r matches Some(i) ==> i < self.chunks().len() && self.chunks()[i as int].pos_spec() == *pos
                && self.index_of(*pos) == i,
            r is None <==> !self.contains(*pos),
    {
        let mut i: usize = 0;
        while i < self.data.len()
            invariant
                self.wf(),
                i <= self.chunks().len(),
                forall|j: int| 0 <= j < i ==> (#[trigger] self.chunks()[j]).pos_spec() != *pos,
            decreases self.chunks().len() - i,
        {
            if self.data[i].get_pos() == *pos {
                proof {
                    self.lemma_index(*pos, i as int);
                }
                return Some(i);
            }
            i = i + 1;
        }
        None
    }

    /// The chunk loaded at `pos`, if any.
    pub fn get_chunk(&self, pos: &IVec3) -> (r: Option<&Chunk>)
        requires
            self.wf(),
        ensures
            r matches Some(c) ==> self.contains(*pos) && *c == self.chunk(*pos),
            r is None <==> !self.contains(*pos),
    {
        match self.find(pos) {
            Some(i) => Some(&self.data[i]),
            None => None,
        }
    }

    /// The data of the chunk at `pos`, if it is loaded and initialised.
    pub fn ready_data(&self, pos: &IVec3) -> (r: Option<&ChunkData>)
        requires
            self.wf(),
        ensures
            r matches Some(d) ==> self.ready_at(*pos) && *d == self.data_at(*pos) && d.wf(),
            r is None <==> !self.ready_at(*pos),
    {
        match self.find(pos) {
            None => None,
            Some(i) => {
                if self.data[i].is_initialized() {
                    match self.data[i].get_data() {
                        Ok(d) => Some(d),
                        Err(_) => None,
                    }
                } else {
                    None
                }
            },
        }
    }

    /// The position of every loaded chunk, in map order.
    pub fn iter(&self) -> (r: Vec<IVec3>)
        ensures
            r@ == self.chunks().map_values(|c: Chunk| c.pos_spec()),
    {
        let mut r: Vec<IVec3> = Vec::new();
        let mut i: usize = 0;
        while i < self.data.len()
            invariant
                i <= self.chunks().len(),
                r@ == self.chunks().take(i as int).map_values(|c: Chunk| c.pos_spec()),
            decreases self.chunks().len() - i,
        {
            r.push(self.data[i].get_pos());
            proof {
                assert(self.chunks().take(i + 1).map_values(|c: Chunk| c.pos_spec()) =~= r@);
            }
            i = i + 1;
        }
        proof {
            assert(self.chunks().take(i as int) =~= self.chunks());
        }
        r
    }

    /// Adds `chunk` at its position; fails with `DuplicateChunk` if one is already there.
    pub fn add_chunk(&mut self, chunk: Chunk) -> (r: Result<(), ChunkError>)
        requires
            old(self).wf(),
            chunk.wf(),
        ensures
            final(self).wf(),
            old(self).contains(chunk.pos_spec()) ==> r == Err::<(), ChunkError>(ChunkError::DuplicateChunk(chunk.pos_spec()))
                && *final(self) == *old(self),
            !old(self).contains(chunk.pos_spec()) ==> r is Ok && final(self).chunks() == old(self).chunks().push(chunk),
    {
        let pos = chunk.get_pos();
        if self.find(&pos).is_some() {
            return Err(ChunkError::DuplicateChunk(pos));
        }
        let ghost added = chunk;
        self.data.push(chunk);
        proof {
            assert forall|a: int| 0 <= a < self.chunks().len() implies (#[trigger] self.chunks()[a]).wf() by {
                if a < old(self).chunks().len() {
                    assert(old(self).chunks()[a] == self.chunks()[a]);
                }
            }
            assert forall|i: int, j: int| 0 <= i < j < self.chunks().len() implies (#[trigger] self.chunks()[i]).pos_spec()
                != (#[trigger] self.chunks()[j]).pos_spec() by {
                assert(old(self).chunks()[i] == self.chunks()[i]);
                if j == self.chunks().len() - 1 {
                    if old(self).chunks()[i].pos_spec() == added.pos_spec() {
                        assert(old(self).contains(added.pos_spec()));
                    }
                } else {
                    assert(old(self).chunks()[j] == self.chunks()[j]);
                }
            }
        }
        Ok(())
    }

    /// Writes `state` at local position `local` of the chunk at map position `i`.
    fn chunk_set_block(&mut self, i: usize, local: IVec3, state: BlockState) -> (r: Result<BlockState, ChunkError>)
        requires
            old(self).wf(),
            i < old(self).chunks().len(),
        ensures
            final(self).wf(),
            final(self).chunks().len() == old(self).chunks().len(),
            forall|j: int| 0 <= j < old(self).chunks().len() && j != i ==> #[trigger] final(self).chunks()[j] == old(self).chunks()[j],
            ({
                let (c0, c1) = (old(self).chunks()[i as int], final(self).chunks()[i as int]);
                &&& c1.pos_spec() == c0.pos_spec()
                &&& c1.entity_spec() == c0.entity_spec()
                &&& c1.status_spec() == c0.status_spec()
                &&& c1.data_spec() is Some == c0.data_spec() is Some
                &&& !c0.initialized() ==> r == Err::<BlockState, ChunkError>(ChunkError::Uninitialized(c0.pos_spec())) && c1 == c0
                &&& c0.initialized() && !local_in_chunk(local) ==> r == Err::<BlockState, ChunkError>(crate::chunk::local_out_of_bounds(local)) && c1 == c0
                &&& c0.initialized() && local_in_chunk(local) ==> (r matches Ok(b) && b@ == c0.data_spec().unwrap().state_at(local_index(local)))
                &&& c0.initialized() && local_in_chunk(local) ==> c1.data_spec().unwrap().states()
                    == c0.data_spec().unwrap().states().update(local_index(local), state@)
            }),
    {
        let r = self.data[i].set_block(local, state);
        proof {
            assert forall|a: int, b: int| 0 <= a < b < self.chunks().len() implies (#[trigger] self.chunks()[a]).pos_spec()
                != (#[trigger] self.chunks()[b]).pos_spec() by {
                assert(old(self).chunks()[a].pos_spec() == self.chunks()[a].pos_spec());
                assert(old(self).chunks()[b].pos_spec() == self.chunks()[b].pos_spec());
            }
            assert forall|a: int| 0 <= a < self.chunks().len() implies (#[trigger] self.chunks()[a]).wf() by {
                if a != i {
                    assert(old(self).chunks()[a] == self.chunks()[a]);
                }
            }
        }
        r
    }

    /// Installs `data` into the chunk at map position `i`.
    fn chunk_init_data(&mut self, i: usize, data: ChunkData) -> (r: Result<(), ChunkError>)
        requires
            old(self).wf(),
            i < old(self).chunks().len(),
            data.wf(),
        ensures
            final(self).wf(),
            final(self).chunks().len() == old(self).chunks().len(),
            forall|j: int| 0 <= j < old(self).chunks().len() && j != i ==> #[trigger] final(self).chunks()[j] == old(self).chunks()[j],
            ({
                let (c0, c1) = (old(self).chunks()[i as int], final(self).chunks()[i as int]);
                &&& c1.pos_spec() == c0.pos_spec()
                &&& c1.entity_spec() == c0.entity_spec()
                &&& c0.data_spec() is Some ==> r == Err::<(), ChunkError>(ChunkError::AlreadyInitialized(c0.pos_spec())) && c1 == c0
                &&& c0.data_spec() is None ==> r is Ok && c1.data_spec() == Some(data) && c1.initialized()
            }),
    {
        let r = self.data[i].init_data(data);
        proof {
            assert forall|a: int, b: int| 0 <= a < b < self.chunks().len() implies (#[trigger] self.chunks()[a]).pos_spec()
                != (#[trigger] self.chunks()[b]).pos_spec() by {
                assert(old(self).chunks()[a].pos_spec() == self.chunks()[a].pos_spec());
                assert(old(self).chunks()[b].pos_spec() == self.chunks()[b].pos_spec());
            }
            assert forall|a: int| 0 <= a < self.chunks().len() implies (#[trigger] self.chunks()[a]).wf() by {
                if a != i {
                    assert(old(self).chunks()[a] == self.chunks()[a]);
                }
            }
        }
        r
    }

    /// Removes and returns the chunk at `pos`; fails with `NotFound` if none is there.
    pub fn remove_chunk(&mut self, pos: IVec3) -> (r: Result<Chunk, ChunkError>)
        requires
            old(self).wf(),
        ensures
            final(self).wf(),
            !old(self).contains(pos) ==> r == Err::<Chunk, ChunkError>(ChunkError::NotFound(pos))
                && *final(self) == *old(self),
            old(self).contains(pos) ==> (r matches Ok(c) && c == old(self).chunk(pos))
                && final(self).chunks() == old(self).chunks().remove(old(self).index_of(pos)),
    {
        match self.find(&pos) {
            None => Err(ChunkError::NotFound(pos)),
            Some(i) => {
                let c = self.data.remove(i);
                proof {
                    let o = old(self).chunks();
                    assert forall|a: int, b: int| 0 <= a < b < self.chunks().len() implies (#[trigger] self.chunks()[a]).pos_spec()
                        != (#[trigger] self.chunks()[b]).pos_spec() by {
                        let a2 = if a < i { a } else { a + 1 };
                        let b2 = if b < i { b } else { b + 1 };
                        assert(self.chunks()[a] == o[a2]);
                        assert(self.chunks()[b] == o[b2]);
                    }
                    assert forall|a: int| 0 <= a < self.chunks().len() implies (#[trigger] self.chunks()[a]).wf() by {
                        let a2 = if a < i { a } else { a + 1 };
                        assert(self.chunks()[a] == o[a2]);
                    }
                }
                Ok(c)
            },
        }
    }
}


/// Bytes of vertex data that one tick may upload: one mebibyte.
pub const MIB_PER_FRAME: u64 = 1048576;

/// The queues of the chunk pipeline: positions waiting for generation or removal, the
/// generation and meshing tasks in flight, and their finished results in arrival order.
/// A finished mesh is known here by its vertex-buffer size in bytes, or `None` for a chunk
/// with nothing to draw.
#[derive(Debug)]
pub struct ChunkQueue {
    to_generate: std::collections::VecDeque<IVec3>,
    to_despawn: std::collections::VecDeque<IVec3>,
    currently_generating: Vec<IVec3>,
    finished_generating: std::collections::VecDeque<(IVec3, ChunkData)>,
    currently_meshing: Vec<IVec3>,
    finished_meshing: std::collections::VecDeque<(IVec3, Option<u64>)>,
}

/// What one run of the generation intake did: the chunks it created, each with the visual
/// handle it was given (a generation task is owed for each), and the positions it skipped.
#[derive(Debug)]
pub struct GenerationTick {
    pub spawned: Vec<(IVec3, u64)>,
    pub errors: Vec<ChunkError>,
}

/// What one run of the despawn intake did: the visual handles of the removed chunks (to
/// be discarded), and the positions it could not remove.
#[derive(Debug)]
pub struct DespawnTick {
    pub despawned: Vec<u64>,
    pub errors: Vec<ChunkError>,
}

/// A meshing task: snapshots of a chunk's data and of its six neighbours'.
#[derive(Debug)]
pub struct MeshJob {
    pub pos: IVec3,
    pub data: ChunkData,
    pub north: ChunkData,
    pub south: ChunkData,
    pub east: ChunkData,
    pub west: ChunkData,
    pub up: ChunkData,
    pub down: ChunkData,
}

/// What one run of the upload stage decided: the meshes to upload (position and visual
/// handle of the chunk) and the finished meshes dropped because their chunk is gone.
#[derive(Debug)]
pub struct UploadTick {
    pub uploads: Vec<(IVec3, u64)>,
    pub discarded: Vec<IVec3>,
}

/// A world of chunks: the chunk map, the pipeline's queues, the chunks waiting to be
/// meshed, and the next free visual handle.
#[derive(Debug)]
pub struct BlockWorld {
    map: ChunkMap,
    chunk_queue: ChunkQueue,
    needs_meshing: Vec<IVec3>,
    next_entity: u64,
}

/// The positions that a generation intake over `q` creates chunks for, given the loaded
/// positions `has`: each position not loaded and not created earlier in the same run.
pub open spec fn spawn_list(has: Set<IVec3>, q: Seq<IVec3>) -> Seq<IVec3>
    decreases q.len(),
{
    if q.len() == 0 {
        seq![]
    } else {
        let prev = spawn_list(has, q.drop_last());
        if has.contains(q.last()) || prev.contains(q.last()) {
            prev
        } else {
            prev.push(q.last())
        }
    }
}

pub open spec fn no_dups(s: Seq<IVec3>) -> bool {
    forall|i: int, j: int| 0 <= i < j < s.len() ==> s[i] != s[j]
}

impl BlockWorld {
    pub closed spec fn map_spec(&self) -> ChunkMap {
        self.map
    }

    pub closed spec fn to_generate(&self) -> Seq<IVec3> {
        self.chunk_queue.to_generate@
    }

    pub closed spec fn to_despawn(&self) -> Seq<IVec3> {
        self.chunk_queue.to_despawn@
    }

    pub closed spec fn generating(&self) -> Seq<IVec3> {
        self.chunk_queue.currently_generating@
    }

    pub closed spec fn finished_generating(&self) -> Seq<(IVec3, ChunkData)> {
        self.chunk_queue.finished_generating@
    }

    pub closed spec fn meshing(&self) -> Seq<IVec3> {
        self.chunk_queue.currently_meshing@
    }

    pub closed spec fn finished_meshing(&self) -> Seq<(IVec3, Option<u64>)> {
        self.chunk_queue.finished_meshing@
    }

    /// The chunks whose mesh is out of date.
    pub closed spec fn dirty(&self) -> Seq<IVec3> {
        self.needs_meshing@
    }

    pub closed spec fn next_entity_spec(&self) -> u64 {
        self.next_entity
    }

    /// The loaded positions.
    pub open spec fn loaded(&self) -> Set<IVec3> {
        Set::new(|p: IVec3| self.map_spec().contains(p))
    }

    pub open spec fn wf(&self) -> bool {
        &&& self.map_spec().wf()
        &&& forall|i: int| 0 <= i < self.map_spec().chunks().len() ==> (#[trigger] self.map_spec().chunks()[i]).entity_spec()
            < self.next_entity_spec()
        &&& no_dups(self.generating())
        &&& no_dups(self.meshing())
        &&& no_dups(self.dirty())
        &&& forall|i: int| 0 <= i < self.finished_generating().len() ==> (#[trigger] self.finished_generating()[i]).1.wf()
    }

    pub fn new() -> (r: BlockWorld)
        ensures
            r.wf(),
            r.map_spec().chunks().len() == 0,
            r.to_generate().len() == 0,
            r.to_despawn().len() == 0,
            r.generating().len() == 0,
            r.finished_generating().len() == 0,
            r.meshing().len() == 0,
            r.finished_meshing().len() == 0,
            r.dirty().len() == 0,
    {
        BlockWorld {
            map: ChunkMap::new(),
            chunk_queue: ChunkQueue {
                to_generate: std::collections::VecDeque::new(),
                to_despawn: std::collections::VecDeque::new(),
                currently_generating: Vec::new(),
                finished_generating: std::collections::VecDeque::new(),
                currently_meshing: Vec::new(),
                finished_meshing: std::collections::VecDeque::new(),
            },
            needs_meshing: Vec::new(),
            next_entity: 0,
        }
    }

    pub fn get_chunk_map(&self) -> (r: &ChunkMap)
        ensures
            *r == self.map_spec(),
    {
        &self.map
    }

    /// Asks for the chunk at `pos` to be generated on the next tick.
    pub fn queue_chunk_generation(&mut self, pos: IVec3)
        requires
            old(self).wf(),
        ensures
            final(self).wf(),
            final(self).to_generate() == old(self).to_generate().push(pos),
            final(self).map_spec() == old(self).map_spec(),
            final(self).to_despawn() == old(self).to_despawn(),
            final(self).generating() == old(self).generating(),
            final(self).finished_generating() == old(self).finished_generating(),
            final(self).meshing() == old(self).meshing(),
            final(self).finished_meshing() == old(self).finished_meshing(),
            final(self).dirty() == old(self).dirty(),
            final(self).next_entity_spec() == old(self).next_entity_spec(),
    {
        self.chunk_queue.to_generate.push_back(pos);
        proof {
            assert(self.map_spec() == old(self).map_spec());
            assert(self.finished_generating() == old(self).finished_generating());
            assert(self.generating() == old(self).generating());
            assert(self.meshing() == old(self).meshing());
        }
    }

    /// Asks for the chunk at `pos` to be removed on the next tick.
    pub fn queue_chunk_despawn(&mut self, pos: IVec3)
        requires
            old(self).wf(),
        ensures
            final(self).wf(),
            final(self).to_despawn() == old(self).to_despawn().push(pos),
            final(self).map_spec() == old(self).map_spec(),
            final(self).to_generate() == old(self).to_generate(),
            final(self).generating() == old(self).generating(),
            final(self).finished_generating() == old(self).finished_generating(),
            final(self).meshing() == old(self).meshing(),
            final(self).finished_meshing() == old(self).finished_meshing(),
            final(self).dirty() == old(self).dirty(),
            final(self).next_entity_spec() == old(self).next_entity_spec(),
    {
        self.chunk_queue.to_despawn.push_back(pos);
        proof {
            assert(self.map_spec() == old(self).map_spec());
            assert(self.finished_generating() == old(self).finished_generating());
            assert(self.generating() == old(self).generating());
            assert(self.meshing() == old(self).meshing());
        }
    }

    /// Whether a generation task for `pos` is in flight.
    pub fn is_queued_for_generation(&self, pos: &IVec3) -> (r: bool)
        ensures
            r == self.generating().contains(*pos),
    {
        vec_contains(&self.chunk_queue.currently_generating, pos)
    }

    /// Whether a meshing task for `pos` is in flight or its mesh waits for upload.
    pub fn is_queued_for_meshing(&self, pos: &IVec3) -> (r: bool)
        ensures
            r == (self.meshing().contains(*pos) || exists|i: int|
                0 <= i < self.finished_meshing().len() && (#[trigger] self.finished_meshing()[i]).0 == *pos),
    {
        if vec_contains(&self.chunk_queue.currently_meshing, pos) {
            return true;
        }
        let q = &self.chunk_queue.finished_meshing;
        let mut i: usize = 0;
        while i < q.len()
            invariant
                i <= q@.len(),
                q@ == self.finished_meshing(),
                forall|j: int| 0 <= j < i ==> (#[trigger] q@[j]).0 != *pos,
            decreases q@.len() - i,
        {
            if q[i].0 == *pos {
                return true;
            }
            i = i + 1;
        }
        false
    }
}

impl BlockWorld {
    /// Pushing a chunk onto the map loads exactly its position in addition.
    proof fn lemma_loaded_push(m0: ChunkMap, m1: ChunkMap, c: Chunk)
        requires
            m1.chunks() == m0.chunks().push(c),
        ensures
            Set::new(|p: IVec3| m1.contains(p)) == Set::new(|p: IVec3| m0.contains(p)).insert(c.pos_spec()),
    {
        let n = m0.chunks().len();
        assert forall|p: IVec3| m1.contains(p) <==> (m0.contains(p) || p == c.pos_spec()) by {
            if m0.contains(p) {
                let i = choose|i: int| 0 <= i < n && (#[trigger] m0.chunks()[i]).pos_spec() == p;
                assert(m1.chunks()[i] == m0.chunks()[i]);
            }
            if p == c.pos_spec() {
                assert(m1.chunks()[n as int] == c);
            }
            if m1.contains(p) {
                let j = choose|j: int| 0 <= j < n + 1 && (#[trigger] m1.chunks()[j]).pos_spec() == p;
                if j < n {
                    assert(m1.chunks()[j] == m0.chunks()[j]);
                }
            }
        }
        assert(Set::new(|p: IVec3| m1.contains(p)) =~= Set::new(|p: IVec3| m0.contains(p)).insert(c.pos_spec()));
    }

    /// Generation intake: takes every queued position in order and creates a chunk there,
    /// with a fresh visual handle, unless one is loaded already (a `DuplicateChunk` error,
    /// skipped). A generation task is owed for each created chunk, which is recorded as
    /// in flight.
    #[verifier::loop_isolation(false)]
    pub fn process_generate_queue(&mut self) -> (r: GenerationTick)
        requires
            old(self).wf(),
            old(self).next_entity_spec() + old(self).to_generate().len() <= u64::MAX,
        ensures
            final(self).wf(),
            final(self).to_generate().len() == 0,
            ({
                let sp = spawn_list(old(self).loaded(), old(self).to_generate());
                let n = old(self).map_spec().chunks().len();
                let e = old(self).next_entity_spec();
                &&& r.spawned@.len() == sp.len()
                &&& forall|k: int| 0 <= k < sp.len() ==> #[trigger] r.spawned@[k] == (sp[k], (e + k) as u64)
                &&& final(self).map_spec().chunks().len() == n + sp.len()
                &&& forall|j: int| 0 <= j < n ==> #[trigger] final(self).map_spec().chunks()[j] == old(self).map_spec().chunks()[j]
                &&& forall|k: int| 0 <= k < sp.len() ==> {
                    let c = #[trigger] final(self).map_spec().chunks()[n + k];
                    &&& c.pos_spec() == sp[k]
                    &&& c.entity_spec() == e + k
                    &&& c.data_spec() is None
                    &&& c.status_spec() == crate::chunk::ChunkGenerationStatus::NotGenerated
                }
                &&& final(self).loaded() == old(self).loaded() + sp.to_set()
                &&& final(self).generating().to_set() == old(self).generating().to_set() + sp.to_set()
                &&& final(self).next_entity_spec() == e + sp.len()
                &&& r.errors@.len() == old(self).to_generate().len() - sp.len()
            }),
            forall|i: int| 0 <= i < r.errors@.len() ==> (#[trigger] r.errors@[i]) is DuplicateChunk,
            final(self).to_despawn() == old(self).to_despawn(),
            final(self).finished_generating() == old(self).finished_generating(),
            final(self).meshing() == old(self).meshing(),
            final(self).finished_meshing() == old(self).finished_meshing(),
            final(self).dirty() == old(self).dirty(),
    {
        let ghost q = self.to_generate();
        let ghost has0 = self.loaded();
        let ghost n0 = self.map.chunks().len();
        let ghost e0 = self.next_entity;
        let ghost gen0 = self.generating();
        let ghost mut i: int = 0;
        let mut spawned: Vec<(IVec3, u64)> = Vec::new();
        let mut errors: Vec<ChunkError> = Vec::new();
        while self.chunk_queue.to_generate.len() > 0
            invariant
                self.wf(),
                0 <= i <= q.len(),
                self.to_generate() == q.subrange(i, q.len() as int),
                spawned@.len() == spawn_list(has0, q.take(i)).len(),
                forall|k: int| 0 <= k < spawned@.len() ==> #[trigger] spawned@[k] == (spawn_list(has0, q.take(i))[k], (e0 + k) as u64),
                self.map.chunks().len() == n0 + spawned@.len(),
                forall|j: int| 0 <= j < n0 ==> #[trigger] self.map.chunks()[j] == old(self).map.chunks()[j],
                forall|k: int| 0 <= k < spawned@.len() ==> {
                    let c = #[trigger] self.map.chunks()[n0 + k];
                    &&& c.pos_spec() == spawn_list(has0, q.take(i))[k]
                    &&& c.entity_spec() == e0 + k
                    &&& c.data_spec() is None
                    &&& c.status_spec() == crate::chunk::ChunkGenerationStatus::NotGenerated
                },
                self.loaded() == has0 + spawn_list(has0, q.take(i)).to_set(),
                self.generating().to_set() == gen0.to_set() + spawn_list(has0, q.take(i)).to_set(),
                self.next_entity == e0 + spawned@.len(),
                errors@.len() == i - spawned@.len(),
                forall|k: int| 0 <= k < errors@.len() ==> (#[trigger] errors@[k]) is DuplicateChunk,
                self.to_despawn() == old(self).to_despawn(),
                self.finished_generating() == old(self).finished_generating(),
                self.meshing() == old(self).meshing(),
                self.finished_meshing() == old(self).finished_meshing(),
                self.dirty() == old(self).dirty(),
            decreases q.len() - i,
        {
            let pos = self.chunk_queue.to_generate.pop_front().unwrap();
            let ghost sp = spawn_list(has0, q.take(i));
            proof {
                assert(q.take(i + 1).drop_last() == q.take(i));
                assert(q.take(i + 1).last() == pos);
                assert(self.loaded().contains(pos) == self.map.contains(pos));
            }
            let entity = self.next_entity;
            let chunk = Chunk::new(pos, entity);
            let ghost cg = chunk;
            let ghost m0 = self.map;
            match self.map.add_chunk(chunk) {
                Err(e) => {
                    errors.push(e);
                    proof {
                        assert(spawn_list(has0, q.take(i + 1)) == sp);
                        i = i + 1;
                    }
                },
                Ok(()) => {
                    proof {
                        Self::lemma_loaded_push(m0, self.map, cg);
                    }
                    self.next_entity = self.next_entity + 1;
                    let ghost g1 = self.generating();
                    proof {
                        sp.lemma_push_to_set_commute(pos);
                    }
                    if !vec_contains(&self.chunk_queue.currently_generating, &pos) {
                        self.chunk_queue.currently_generating.push(pos);
                        proof {
                            g1.lemma_push_to_set_commute(pos);
                            assert(self.generating().to_set() =~= gen0.to_set() + sp.push(pos).to_set());
                        }
                    } else {
                        proof {
                            assert(g1.to_set().contains(pos));
                            assert(self.generating().to_set() =~= gen0.to_set() + sp.push(pos).to_set());
                        }
                    }
                    spawned.push((pos, entity));
                    proof {
                        assert(spawn_list(has0, q.take(i + 1)) == sp.push(pos));
                        sp.lemma_push_to_set_commute(pos);
                        assert(self.loaded() =~= has0 + sp.push(pos).to_set());
                        i = i + 1;
                    }
                },
            }
        }
        proof {
            assert(q.take(i) == q);
        }
        GenerationTick { spawned, errors }
    }
}

impl BlockWorld {
    /// Removing the chunk at `p` unloads exactly `p`.
    proof fn lemma_loaded_remove(m0: ChunkMap, m1: ChunkMap, p: IVec3)
        requires
            m0.wf(),
            m0.contains(p),
            m1.chunks() == m0.chunks().remove(m0.index_of(p)),
        ensures
            Set::new(|q: IVec3| m1.contains(q)) == Set::new(|q: IVec3| m0.contains(q)).remove(p),
    {
        let k = m0.index_of(p);
        let n = m0.chunks().len();
        assert forall|q: IVec3| m1.contains(q) <==> (m0.contains(q) && q != p) by {
            if m1.contains(q) {
                let j = choose|j: int| 0 <= j < n - 1 && (#[trigger] m1.chunks()[j]).pos_spec() == q;
                let j2 = if j < k { j } else { j + 1 };
                assert(m1.chunks()[j] == m0.chunks()[j2]);
                assert(j2 != k);
                if q == p {
                    if j2 < k {
                        assert(m0.chunks()[j2].pos_spec() != m0.chunks()[k].pos_spec());
                    } else {
                        assert(m0.chunks()[k].pos_spec() != m0.chunks()[j2].pos_spec());
                    }
                }
            }
            if m0.contains(q) && q != p {
                let i = choose|i: int| 0 <= i < n && (#[trigger] m0.chunks()[i]).pos_spec() == q;
                assert(i != k);
                let i2 = if i < k { i } else { i - 1 };
                assert(m1.chunks()[i2] == m0.chunks()[i]);
            }
        }
        assert(Set::new(|q: IVec3| m1.contains(q)) =~= Set::new(|q: IVec3| m0.contains(q)).remove(p));
    }

    /// Despawn intake: takes every queued position in order and removes its chunk, handing
    /// back the chunk's visual handle; a position with no chunk gives a `NotFound` error
    /// and is skipped.
    #[verifier::loop_isolation(false)]
    pub fn process_despawn_queue(&mut self) -> (r: DespawnTick)
        requires
            old(self).wf(),
        ensures
            final(self).wf(),
            final(self).to_despawn().len() == 0,
            final(self).loaded() == old(self).loaded() - old(self).to_despawn().to_set(),
            r.despawned@ == despawn_handles(old(self).map_spec(), old(self).to_despawn(), old(self).to_despawn().len()),
            r.errors@ == despawn_errors(old(self).map_spec(), old(self).to_despawn(), old(self).to_despawn().len()),
            final(self).to_generate() == old(self).to_generate(),
            final(self).generating() == old(self).generating(),
            final(self).finished_generating() == old(self).finished_generating(),
            final(self).meshing() == old(self).meshing(),
            final(self).finished_meshing() == old(self).finished_meshing(),
            final(self).dirty() == old(self).dirty(),
            final(self).next_entity_spec() == old(self).next_entity_spec(),
    {
        let ghost q = self.to_despawn();
        let ghost has0 = self.loaded();
        let ghost mut i: int = 0;
        let mut despawned: Vec<u64> = Vec::new();
        let mut errors: Vec<ChunkError> = Vec::new();
        while self.chunk_queue.to_despawn.len() > 0
            invariant
                self.wf(),
                0 <= i <= q.len(),
                self.to_despawn() == q.subrange(i, q.len() as int),
                self.loaded() == has0 - q.take(i).to_set(),
                despawned@ == despawn_handles(old(self).map, q, i as nat),
                errors@ == despawn_errors(old(self).map, q, i as nat),
                forall|p: IVec3| #[trigger] self.map.contains(p) ==> self.map.chunk(p) == old(self).map.chunk(p),
                self.to_generate() == old(self).to_generate(),
                self.generating() == old(self).generating(),
                self.finished_generating() == old(self).finished_generating(),
                self.meshing() == old(self).meshing(),
                self.finished_meshing() == old(self).finished_meshing(),
                self.dirty() == old(self).dirty(),
                self.next_entity == old(self).next_entity,
            decreases q.len() - i,
        {
            let pos = self.chunk_queue.to_despawn.pop_front().unwrap();
            proof {
                assert(q.take(i + 1) == q.take(i).push(pos));
                q.take(i).lemma_push_to_set_commute(pos);
            }
            let ghost m0 = self.map;
            proof {
                assert(self.loaded().contains(pos) == self.map.contains(pos));
                assert(old(self).loaded().contains(pos) == old(self).map.contains(pos));
            }
            match self.map.remove_chunk(pos) {
                Ok(c) => {
                    despawned.push(c.get_entity());
                    proof {
                        assert(despawned@ =~= despawn_handles(old(self).map, q, (i + 1) as nat));
                        assert(errors@ =~= despawn_errors(old(self).map, q, (i + 1) as nat));
                        let kk = m0.index_of(pos);
                        assert forall|p: IVec3| #[trigger] self.map.contains(p) implies self.map.chunk(p) == old(self).map.chunk(p) by {
                            let j2 = self.map.index_of(p);
                            let j = if j2 < kk { j2 } else { j2 + 1 };
                            assert(self.map.chunks()[j2] == m0.chunks()[j]);
                            m0.lemma_index(p, j);
                            self.map.lemma_index(p, j2);
                        }
                        Self::lemma_loaded_remove(m0, self.map, pos);
                        assert(self.loaded() =~= has0 - q.take(i + 1).to_set());
                        let k = m0.index_of(pos);
                        assert forall|a: int| 0 <= a < self.map.chunks().len() implies (#[trigger] self.map.chunks()[a]).entity_spec()
                            < self.next_entity by {
                            let a2 = if a < k { a } else { a + 1 };
                            assert(self.map.chunks()[a] == m0.chunks()[a2]);
                        }
                    }
                },
                Err(e) => {
                    errors.push(e);
                    proof {
                        assert(despawned@ =~= despawn_handles(old(self).map, q, (i + 1) as nat));
                        assert(errors@ =~= despawn_errors(old(self).map, q, (i + 1) as nat));
                        assert(!has0.contains(pos) || q.take(i).to_set().contains(pos));
                        assert(self.loaded() =~= has0 - q.take(i + 1).to_set());
                    }
                },
            }
            proof {
                i = i + 1;
            }
        }
        proof {
            assert(q.take(i) == q);
        }
        DespawnTick { despawned, errors }
    }

    /// A generation task for `pos` has finished with `data`: moves `pos` from in flight to
    /// the finished results. Returns whether a task for `pos` was in flight; if none was,
    /// nothing changes.
    pub fn receive_generated_chunk(&mut self, pos: IVec3, data: ChunkData) -> (r: bool)
        requires
            old(self).wf(),
            data.wf(),
        ensures
            final(self).wf(),
            r == old(self).generating().contains(pos),
            r ==> final(self).finished_generating() == old(self).finished_generating().push((pos, data))
                && final(self).generating().to_set() == old(self).generating().to_set().remove(pos),
            !r ==> *final(self) == *old(self),
            final(self).map_spec() == old(self).map_spec(),
            final(self).dirty() == old(self).dirty(),
            final(self).meshing() == old(self).meshing(),
            final(self).finished_meshing() == old(self).finished_meshing(),
            final(self).to_generate() == old(self).to_generate(),
            final(self).to_despawn() == old(self).to_despawn(),
            final(self).next_entity_spec() == old(self).next_entity_spec(),
    {
        match position_of(&self.chunk_queue.currently_generating, &pos) {
            None => false,
            Some(i) => {
                let ghost g0 = self.generating();
                self.chunk_queue.currently_generating.remove(i);
                self.chunk_queue.finished_generating.push_back((pos, data));
                proof {
                    lemma_remove_unique(g0, i as int);
                    assert forall|k: int| 0 <= k < self.finished_generating().len() implies (#[trigger] self.finished_generating()[k]).1.wf() by {
                        if k < old(self).finished_generating().len() {
                            assert(self.finished_generating()[k] == old(self).finished_generating()[k]);
                        }
                    }
                }
                true
            },
        }
    }

    /// A meshing task for `pos` has finished, with the vertex-buffer size of its mesh or
    /// `None` for nothing to draw: moves `pos` from in flight to the finished meshes.
    /// Returns whether a task for `pos` was in flight; if none was, nothing changes.
    pub fn receive_generated_mesh(&mut self, pos: IVec3, mesh_size: Option<u64>) -> (r: bool)
        requires
            old(self).wf(),
        ensures
            final(self).wf(),
            r == old(self).meshing().contains(pos),
            r ==> final(self).finished_meshing() == old(self).finished_meshing().push((pos, mesh_size))
                && final(self).meshing().to_set() == old(self).meshing().to_set().remove(pos),
            !r ==> *final(self) == *old(self),
            final(self).map_spec() == old(self).map_spec(),
            final(self).dirty() == old(self).dirty(),
            final(self).generating() == old(self).generating(),
            final(self).finished_generating() == old(self).finished_generating(),
            final(self).to_generate() == old(self).to_generate(),
            final(self).to_despawn() == old(self).to_despawn(),
            final(self).next_entity_spec() == old(self).next_entity_spec(),
    {
        match position_of(&self.chunk_queue.currently_meshing, &pos) {
            None => false,
            Some(i) => {
                let ghost g0 = self.meshing();
                self.chunk_queue.currently_meshing.remove(i);
                self.chunk_queue.finished_meshing.push_back((pos, mesh_size));
                proof {
                    lemma_remove_unique(g0, i as int);
                    assert(self.finished_generating() == old(self).finished_generating());
                    assert(self.map_spec() == old(self).map_spec());
                }
                true
            },
        }
    }
}

/// The chunk holding the world cell `pos`.
pub open spec fn chunk_of(pos: IVec3) -> IVec3 {
    IVec3 {
        x: crate::pos::chunk_coord(pos.x as int) as i32,
        y: crate::pos::chunk_coord(pos.y as int) as i32,
        z: crate::pos::chunk_coord(pos.z as int) as i32,
    }
}

/// The position of the world cell `pos` inside its chunk.
pub open spec fn local_of(pos: IVec3) -> IVec3 {
    IVec3 {
        x: crate::pos::local_coord(pos.x as int) as i32,
        y: crate::pos::local_coord(pos.y as int) as i32,
        z: crate::pos::local_coord(pos.z as int) as i32,
    }
}

/// The flat cell index of the world cell `pos` inside its chunk.
pub open spec fn cell_of(pos: IVec3) -> int {
    crate::pos::cell_index(
        crate::pos::local_coord(pos.x as int),
        crate::pos::local_coord(pos.y as int),
        crate::pos::local_coord(pos.z as int),
    )
}

/// The neighbour of chunk `p` in direction `d`, if its position fits in `i32`.
pub open spec fn neighbor_ready(m: ChunkMap, p: IVec3, d: Direction) -> bool {
    can_step(p, d) && m.ready_at(stepped(p, d))
}

/// Whether chunk `p` can be meshed: it and its six face neighbours are loaded and initialised.
pub open spec fn mesh_ready(m: ChunkMap, p: IVec3) -> bool {
    &&& m.ready_at(p)
    &&& neighbor_ready(m, p, Direction::North)
    &&& neighbor_ready(m, p, Direction::South)
    &&& neighbor_ready(m, p, Direction::East)
    &&& neighbor_ready(m, p, Direction::West)
    &&& neighbor_ready(m, p, Direction::Up)
    &&& neighbor_ready(m, p, Direction::Down)
}

/// The chunks to re-mesh after an edit of the world cell `pos`: its own chunk, and the
/// neighbour across each chunk face that the cell touches.
pub open spec fn remesh_targets(pos: IVec3) -> Set<IVec3> {
    let c = chunk_of(pos);
    let l = local_of(pos);
    let base = set![c];
    let with_x = if l.x == 0 && can_step(c, Direction::West) {
        base.insert(stepped(c, Direction::West))
    } else if l.x == 31 && can_step(c, Direction::East) {
        base.insert(stepped(c, Direction::East))
    } else {
        base
    };
    let with_y = if l.y == 0 && can_step(c, Direction::Down) {
        with_x.insert(stepped(c, Direction::Down))
    } else if l.y == 31 && can_step(c, Direction::Up) {
        with_x.insert(stepped(c, Direction::Up))
    } else {
        with_x
    };
    if l.z == 0 && can_step(c, Direction::South) {
        with_y.insert(stepped(c, Direction::South))
    } else if l.z == 31 && can_step(c, Direction::North) {
        with_y.insert(stepped(c, Direction::North))
    } else {
        with_y
    }
}

/// Bytes that the first `n` finished meshes of `q` charge against the upload budget: the
/// size of each mesh whose chunk is still loaded.
pub open spec fn upload_cost(q: Seq<(IVec3, Option<u64>)>, m: ChunkMap, n: nat) -> int
    decreases n,
{
    if n == 0 {
        0
    } else {
        upload_cost(q, m, (n - 1) as nat) + match q[n - 1].1 {
            Some(size) => if m.contains(q[n - 1].0) { size as int } else { 0 },
            None => 0,
        }
    }
}

/// Whether finished generation result `k` of `fg` is installed into map `m`: its chunk is
/// loaded without data, and no earlier result is for the same position.
pub open spec fn installs(m: ChunkMap, fg: Seq<(IVec3, ChunkData)>, k: int) -> bool {
    &&& m.contains(fg[k].0)
    &&& m.chunk(fg[k].0).data_spec() is None
    &&& forall|j: int| 0 <= j < k ==> (#[trigger] fg[j]).0 != fg[k].0
}

/// The errors of installing the first `n` results of `fg` into map `m`, in order:
/// `NotFound` for a result whose chunk is not loaded, `AlreadyInitialized` for one whose
/// chunk already has data (from before, or from an earlier result).
pub open spec fn install_errors(m: ChunkMap, fg: Seq<(IVec3, ChunkData)>, n: nat) -> Seq<ChunkError>
    decreases n,
{
    if n == 0 {
        seq![]
    } else {
        let p = fg[n - 1].0;
        let prev = install_errors(m, fg, (n - 1) as nat);
        if !m.contains(p) {
            prev.push(ChunkError::NotFound(p))
        } else if !installs(m, fg, n - 1) {
            prev.push(ChunkError::AlreadyInitialized(p))
        } else {
            prev
        }
    }
}

/// Whether the `n`-th position of a despawn queue `q` removes a chunk of `m`: it is loaded
/// and no earlier position in the queue is the same.
pub open spec fn despawn_removes(m: ChunkMap, q: Seq<IVec3>, n: int) -> bool {
    m.contains(q[n]) && !q.take(n).to_set().contains(q[n])
}

/// The visual handles a despawn intake over the first `n` positions of `q` hands back:
/// those of the chunks it removes, in queue order.
pub open spec fn despawn_handles(m: ChunkMap, q: Seq<IVec3>, n: nat) -> Seq<u64>
    decreases n,
{
    if n == 0 {
        seq![]
    } else if despawn_removes(m, q, n - 1) {
        despawn_handles(m, q, (n - 1) as nat).push(m.chunk(q[n - 1]).entity_spec())
    } else {
        despawn_handles(m, q, (n - 1) as nat)
    }
}

/// The errors of a despawn intake over the first `n` positions of `q`: `NotFound` for each
/// position with no chunk left to remove, in queue order.
pub open spec fn despawn_errors(m: ChunkMap, q: Seq<IVec3>, n: nat) -> Seq<ChunkError>
    decreases n,
{
    if n == 0 {
        seq![]
    } else if despawn_removes(m, q, n - 1) {
        despawn_errors(m, q, (n - 1) as nat)
    } else {
        despawn_errors(m, q, (n - 1) as nat).push(ChunkError::NotFound(q[n - 1]))
    }
}

/// Whether finished mesh `n` of `q` is charged against the budget: it has a mesh and its
/// chunk is still loaded.
pub open spec fn charged(q: Seq<(IVec3, Option<u64>)>, m: ChunkMap, n: int) -> bool {
    q[n].1 is Some && m.contains(q[n].0)
}

/// The bytes finished mesh `n` of `q` is charged.
pub open spec fn charge(q: Seq<(IVec3, Option<u64>)>, m: ChunkMap, n: int) -> int {
    if charged(q, m, n) { q[n].1.unwrap() as int } else { 0 }
}

/// The uploads that the first `n` finished meshes of `q` give: position and visual handle
/// of each mesh whose chunk is still loaded.
pub open spec fn upload_list(q: Seq<(IVec3, Option<u64>)>, m: ChunkMap, n: nat) -> Seq<(IVec3, u64)>
    decreases n,
{
    if n == 0 {
        seq![]
    } else {
        upload_list(q, m, (n - 1) as nat) + match q[n - 1].1 {
            Some(size) => if m.contains(q[n - 1].0) {
                seq![(q[n - 1].0, m.chunk(q[n - 1].0).entity_spec())]
            } else {
                seq![]
            },
            None => seq![],
        }
    }
}

/// Moves `p` one step in `d`, unless a coordinate would leave `i32`.
pub fn step_checked(p: IVec3, d: Direction) -> (r: Option<IVec3>)
    ensures
        r matches Some(q) ==> can_step(p, d) && q == stepped(p, d),
        r is None ==> !can_step(p, d),
{
    let ok = match d {
        Direction::Up => p.y < i32::MAX,
        Direction::Down => p.y > i32::MIN,
        Direction::North => p.z < i32::MAX,
        Direction::South => p.z > i32::MIN,
        Direction::East => p.x < i32::MAX,
        Direction::West => p.x > i32::MIN,
    };
    if ok {
        Some(p.offset(d))
    } else {
        None
    }
}

impl BlockWorld {
    /// Two maps with the same positions index by index load the same positions.
    proof fn lemma_same_positions(m0: ChunkMap, m1: ChunkMap)
        requires
            m0.chunks().len() == m1.chunks().len(),
            forall|j: int| 0 <= j < m0.chunks().len() ==> (#[trigger] m1.chunks()[j]).pos_spec() == m0.chunks()[j].pos_spec(),
        ensures
            Set::new(|p: IVec3| m1.contains(p)) == Set::new(|p: IVec3| m0.contains(p)),
    {
        assert forall|p: IVec3| m1.contains(p) <==> m0.contains(p) by {
            if m1.contains(p) {
                let j = choose|j: int| 0 <= j < m1.chunks().len() && (#[trigger] m1.chunks()[j]).pos_spec() == p;
                assert(m0.chunks()[j].pos_spec() == p);
            }
            if m0.contains(p) {
                let j = choose|j: int| 0 <= j < m0.chunks().len() && (#[trigger] m0.chunks()[j]).pos_spec() == p;
                assert(m1.chunks()[j].pos_spec() == p);
            }
        }
        assert(Set::new(|p: IVec3| m1.contains(p)) =~= Set::new(|p: IVec3| m0.contains(p)));
    }

    /// Marks chunk `p` as needing a mesh, once.
    fn mark_dirty(&mut self, p: IVec3)
        requires
            old(self).wf(),
        ensures
            final(self).wf(),
            final(self).dirty().to_set() == old(self).dirty().to_set().insert(p),
            final(self).map_spec() == old(self).map_spec(),
            final(self).to_generate() == old(self).to_generate(),
            final(self).to_despawn() == old(self).to_despawn(),
            final(self).generating() == old(self).generating(),
            final(self).finished_generating() == old(self).finished_generating(),
            final(self).meshing() == old(self).meshing(),
            final(self).finished_meshing() == old(self).finished_meshing(),
            final(self).next_entity_spec() == old(self).next_entity_spec(),
    {
        let ghost d0 = self.dirty();
        if !vec_contains(&self.needs_meshing, &p) {
            self.needs_meshing.push(p);
            proof {
                d0.lemma_push_to_set_commute(p);
                assert forall|i: int, j: int| 0 <= i < j < self.dirty().len() implies self.dirty()[i] != self.dirty()[j] by {
                    if j == d0.len() {
                        assert(d0[i] == self.dirty()[i]);
                        assert(d0.contains(d0[i]));
                    }
                }
            }
        } else {
            proof {
                assert(d0.to_set().contains(p));
                assert(d0.to_set().insert(p) =~= d0.to_set());
            }
        }
        proof {
            assert(self.finished_generating() == old(self).finished_generating());
            assert(self.map_spec() == old(self).map_spec());
        }
    }

    /// Installs finished generation results: each result's data goes into its chunk (an
    /// `AlreadyInitialized` error if it has data already) and the chunk is marked as needing
    /// a mesh. A result whose chunk is gone gives a `NotFound` error.
    #[verifier::loop_isolation(false)]
    pub fn insert_chunk_data(&mut self) -> (r: Vec<ChunkError>)
        requires
            old(self).wf(),
        ensures
            final(self).wf(),
            final(self).finished_generating().len() == 0,
            final(self).loaded() == old(self).loaded(),
            forall|k: int| 0 <= k < old(self).finished_generating().len() && old(self).loaded().contains(
                #[trigger] old(self).finished_generating()[k].0,
            ) ==> final(self).map_spec().ready_at(old(self).finished_generating()[k].0),
            final(self).dirty().to_set() == old(self).dirty().to_set() + Set::new(|p: IVec3|
                old(self).loaded().contains(p) && exists|k: int| 0 <= k < old(self).finished_generating().len()
                    && (#[trigger] old(self).finished_generating()[k]).0 == p),
            forall|p: IVec3| #[trigger] old(self).map_spec().ready_at(p) ==> final(self).map_spec().ready_at(p)
                && final(self).map_spec().data_at(p) == old(self).map_spec().data_at(p),
            forall|k: int| 0 <= k < old(self).finished_generating().len() && #[trigger] installs(
                old(self).map_spec(),
                old(self).finished_generating(),
                k,
            ) ==> final(self).map_spec().data_at(old(self).finished_generating()[k].0) == old(self).finished_generating()[k].1,
            r@ == install_errors(old(self).map_spec(), old(self).finished_generating(), old(self).finished_generating().len()),
            final(self).to_generate() == old(self).to_generate(),
            final(self).to_despawn() == old(self).to_despawn(),
            final(self).generating() == old(self).generating(),
            final(self).meshing() == old(self).meshing(),
            final(self).finished_meshing() == old(self).finished_meshing(),
            final(self).next_entity_spec() == old(self).next_entity_spec(),
    {
        let ghost fg = self.finished_generating();
        let ghost has0 = self.loaded();
        let ghost m0 = self.map;
        let ghost d0 = self.dirty();
        let ghost mut i: int = 0;
        let mut errors: Vec<ChunkError> = Vec::new();
        while self.chunk_queue.finished_generating.len() > 0
            invariant
                self.wf(),
                0 <= i <= fg.len(),
                self.finished_generating() == fg.subrange(i, fg.len() as int),
                self.map.chunks().len() == m0.chunks().len(),
                forall|j: int| 0 <= j < m0.chunks().len() ==> (#[trigger] self.map.chunks()[j]).pos_spec() == m0.chunks()[j].pos_spec()
                    && self.map.chunks()[j].entity_spec() == m0.chunks()[j].entity_spec(),
                forall|j: int| 0 <= j < m0.chunks().len() && #[trigger] m0.chunks()[j].initialized() ==> self.map.chunks()[j] == m0.chunks()[j],
                forall|k: int| 0 <= k < i && has0.contains(#[trigger] fg[k].0) ==> exists|j: int|
                    0 <= j < self.map.chunks().len() && self.map.chunks()[j].pos_spec() == fg[k].0 && self.map.chunks()[j].initialized(),
                self.dirty().to_set() == d0.to_set() + Set::new(|p: IVec3| has0.contains(p) && exists|k: int| 0 <= k < i && (#[trigger] fg[k]).0 == p),
                forall|j: int| 0 <= j < m0.chunks().len() ==> ((#[trigger] self.map.chunks()[j]).data_spec() is Some <==> (m0.chunks()[j].data_spec() is Some
                    || exists|k: int| 0 <= k < i && fg[k].0 == m0.chunks()[j].pos_spec())),
                forall|k: int| 0 <= k < i && #[trigger] installs(m0, fg, k) ==> self.map.chunks()[m0.index_of(fg[k].0)].data_spec() == Some(fg[k].1),
                errors@ == install_errors(m0, fg, i as nat),
                self.to_generate() == old(self).to_generate(),
                self.to_despawn() == old(self).to_despawn(),
                self.generating() == old(self).generating(),
                self.meshing() == old(self).meshing(),
                self.finished_meshing() == old(self).finished_meshing(),
                self.next_entity == old(self).next_entity,
            decreases fg.len() - i,
        {
            let (pos, data) = self.chunk_queue.finished_generating.pop_front().unwrap();
            proof {
                assert(fg[i] == (pos, data));
                assert(fg[i].1.wf());
                Self::lemma_same_positions(m0, self.map);
                assert(self.loaded().contains(pos) == self.map.contains(pos));
            }
            let ghost s_before = Set::new(|p: IVec3| has0.contains(p) && exists|k: int| 0 <= k < i && (#[trigger] fg[k]).0 == p);
            let ghost s_after = Set::new(|p: IVec3| has0.contains(p) && exists|k: int| 0 <= k < i + 1 && (#[trigger] fg[k]).0 == p);
            match self.map.find(&pos) {
                None => {
                    errors.push(ChunkError::NotFound(pos));
                    proof {
                        assert(!m0.contains(pos));
                        assert(errors@ =~= install_errors(m0, fg, (i + 1) as nat));
                        assert forall|j: int| 0 <= j < m0.chunks().len() implies ((#[trigger] self.map.chunks()[j]).data_spec() is Some <==> (m0.chunks()[j].data_spec() is Some
                            || exists|k: int| 0 <= k < i + 1 && fg[k].0 == m0.chunks()[j].pos_spec())) by {
                            if exists|k: int| 0 <= k < i + 1 && fg[k].0 == m0.chunks()[j].pos_spec() {
                                let k = choose|k: int| 0 <= k < i + 1 && fg[k].0 == m0.chunks()[j].pos_spec();
                                if k == i {
                                    assert(m0.chunks()[j].pos_spec() == pos);
                                    assert(m0.contains(pos));
                                }
                            }
                        }
                        assert(s_after =~= s_before) by {
                            assert forall|p: IVec3| s_after.contains(p) implies s_before.contains(p) by {
                                let k = choose|k: int| 0 <= k < i + 1 && (#[trigger] fg[k]).0 == p;
                                if k == i {
                                    assert(!has0.contains(pos));
                                }
                            }
                        }
                    }
                },
                Some(ix) => {
                    let ghost mb = self.map;
                    proof {
                        assert(m0.chunks()[ix as int].pos_spec() == pos);
                        m0.lemma_index(pos, ix as int);
                        assert(m0.chunks()[ix as int].wf());
                        let had = exists|k: int| 0 <= k < i && fg[k].0 == pos;
                        assert((mb.chunks()[ix as int].data_spec() is Some) == (m0.chunks()[ix as int].data_spec() is Some || had));
                        assert(installs(m0, fg, i) == !(mb.chunks()[ix as int].data_spec() is Some)) by {
                            if had {
                                let k = choose|k: int| 0 <= k < i && fg[k].0 == pos;
                                assert(fg[k].0 == fg[i].0);
                            }
                        }
                    }
                    match self.map.chunk_init_data(ix, data) {
                        Err(e) => {
                            errors.push(e);
                        },
                        Ok(()) => {},
                    }
                    proof {
                        assert(errors@ =~= install_errors(m0, fg, (i + 1) as nat));
                        assert forall|j: int| 0 <= j < m0.chunks().len() implies ((#[trigger] self.map.chunks()[j]).data_spec() is Some <==> (m0.chunks()[j].data_spec() is Some
                            || exists|k: int| 0 <= k < i + 1 && fg[k].0 == m0.chunks()[j].pos_spec())) by {
                            if j != ix {
                                assert(self.map.chunks()[j] == mb.chunks()[j]);
                                if exists|k: int| 0 <= k < i + 1 && fg[k].0 == m0.chunks()[j].pos_spec() {
                                    let k = choose|k: int| 0 <= k < i + 1 && fg[k].0 == m0.chunks()[j].pos_spec();
                                    if k == i {
                                        assert(m0.chunks()[j].pos_spec() != m0.chunks()[ix as int].pos_spec());
                                    }
                                }
                            } else {
                                assert(fg[i].0 == m0.chunks()[j].pos_spec());
                            }
                        }
                        assert forall|k: int| 0 <= k < i + 1 && #[trigger] installs(m0, fg, k) implies self.map.chunks()[m0.index_of(fg[k].0)].data_spec() == Some(fg[k].1) by {
                            if k < i {
                                if m0.index_of(fg[k].0) == ix {
                                    m0.lemma_index(fg[k].0, m0.index_of(fg[k].0));
                                    assert(fg[k].0 == pos);
                                    assert(exists|k2: int| 0 <= k2 < i && fg[k2].0 == pos);
                                } else {
                                    assert(self.map.chunks()[m0.index_of(fg[k].0)] == mb.chunks()[m0.index_of(fg[k].0)]);
                                }
                            }
                        }
                        assert forall|j: int| 0 <= j < m0.chunks().len() && #[trigger] m0.chunks()[j].initialized() implies self.map.chunks()[j] == m0.chunks()[j] by {
                            if j != ix {
                                assert(self.map.chunks()[j] == mb.chunks()[j]);
                            }
                        }
                        assert(self.map.chunks()[ix as int].initialized());
                        assert forall|k: int| 0 <= k < i + 1 && has0.contains(#[trigger] fg[k].0) implies exists|j: int|
                            0 <= j < self.map.chunks().len() && self.map.chunks()[j].pos_spec() == fg[k].0 && self.map.chunks()[j].initialized() by {
                            if k == i {
                                assert(self.map.chunks()[ix as int].pos_spec() == fg[k].0);
                            } else {
                                let j = choose|j: int| 0 <= j < mb.chunks().len() && mb.chunks()[j].pos_spec() == fg[k].0 && mb.chunks()[j].initialized();
                                if j != ix {
                                    assert(self.map.chunks()[j] == mb.chunks()[j]);
                                } else {
                                    assert(self.map.chunks()[ix as int].pos_spec() == fg[k].0);
                                }
                            }
                        }
                    }
                    self.mark_dirty(pos);
                    proof {
                        assert(s_after =~= s_before.insert(pos)) by {
                            assert(has0.contains(pos));
                            assert(fg[i].0 == pos);
                            assert forall|p: IVec3| s_after.contains(p) implies #[trigger] s_before.insert(pos).contains(p) by {
                                let k = choose|k: int| 0 <= k < i + 1 && (#[trigger] fg[k]).0 == p;
                                if k < i {
                                    assert(s_before.contains(p));
                                }
                            }
                            assert forall|p: IVec3| s_before.insert(pos).contains(p) implies #[trigger] s_after.contains(p) by {
                                if p != pos {
                                    let k = choose|k: int| 0 <= k < i && (#[trigger] fg[k]).0 == p;
                                    assert(0 <= k < i + 1 && fg[k].0 == p);
                                }
                            }
                        }
                    }
                },
            }
            proof {
                assert(self.dirty().to_set() =~= d0.to_set() + s_after);
                i = i + 1;
                assert forall|a: int| 0 <= a < self.map.chunks().len() implies (#[trigger] self.map.chunks()[a]).entity_spec() < self.next_entity by {
                    assert(self.map.chunks()[a].entity_spec() == m0.chunks()[a].entity_spec());
                }
            }
        }
        proof {
            Self::lemma_same_positions(m0, self.map);
            assert forall|k: int| 0 <= k < fg.len() && has0.contains(#[trigger] fg[k].0) implies self.map.ready_at(fg[k].0) by {
                let j = choose|j: int| 0 <= j < self.map.chunks().len() && self.map.chunks()[j].pos_spec() == fg[k].0 && self.map.chunks()[j].initialized();
                self.map.lemma_index(fg[k].0, j);
            }
            assert forall|p: IVec3| #[trigger] m0.ready_at(p) implies self.map.ready_at(p) && self.map.data_at(p) == m0.data_at(p) by {
                let j = m0.index_of(p);
                m0.lemma_index(p, j);
                assert(self.map.chunks()[j] == m0.chunks()[j]);
                self.map.lemma_index(p, j);
            }
            assert forall|k: int| 0 <= k < fg.len() && #[trigger] installs(m0, fg, k) implies self.map.data_at(fg[k].0) == fg[k].1 by {
                let j = m0.index_of(fg[k].0);
                m0.lemma_index(fg[k].0, j);
                self.map.lemma_index(fg[k].0, j);
            }
            assert(fg.subrange(i, fg.len() as int).len() == 0);
        }
        errors
    }
}

impl BlockWorld {
    /// Snapshots of the data of chunk `p` and of its six neighbours, when all seven are
    /// loaded and initialised.
    fn mesh_job_for(&self, p: &IVec3) -> (r: Option<MeshJob>)
        requires
            self.wf(),
        ensures
            r is Some <==> mesh_ready(self.map_spec(), *p),
            r matches Some(job) ==> job_matches(job, self.map_spec()) && job.pos == *p,
    {
        let data = match self.map.ready_data(p) { Some(d) => d, None => return None };
        let pn = match step_checked(*p, Direction::North) { Some(q) => q, None => return None };
        let ps = match step_checked(*p, Direction::South) { Some(q) => q, None => return None };
        let pe = match step_checked(*p, Direction::East) { Some(q) => q, None => return None };
        let pw = match step_checked(*p, Direction::West) { Some(q) => q, None => return None };
        let pu = match step_checked(*p, Direction::Up) { Some(q) => q, None => return None };
        let pd = match step_checked(*p, Direction::Down) { Some(q) => q, None => return None };
        let north = match self.map.ready_data(&pn) { Some(d) => d, None => return None };
        let south = match self.map.ready_data(&ps) { Some(d) => d, None => return None };
        let east = match self.map.ready_data(&pe) { Some(d) => d, None => return None };
        let west = match self.map.ready_data(&pw) { Some(d) => d, None => return None };
        let up = match self.map.ready_data(&pu) { Some(d) => d, None => return None };
        let down = match self.map.ready_data(&pd) { Some(d) => d, None => return None };
        Some(MeshJob {
            pos: *p,
            data: data.snapshot(),
            north: north.snapshot(),
            south: south.snapshot(),
            east: east.snapshot(),
            west: west.snapshot(),
            up: up.snapshot(),
            down: down.snapshot(),
        })
    }

    /// Submits meshing for the chunks that need a mesh: each one whose six neighbours are
    /// loaded and initialised, as it is, gets exactly one meshing task (returned, with
    /// snapshots of the seven chunks' data) and is recorded as in flight. The others stay
    /// waiting, except chunks no longer loaded, which are dropped.
    #[verifier::loop_isolation(false)]
    pub fn queue_mesh_creation(&mut self) -> (r: Vec<MeshJob>)
        requires
            old(self).wf(),
        ensures
            final(self).wf(),
            r@.map_values(|j: MeshJob| j.pos) == old(self).dirty().filter(|p: IVec3| mesh_ready(old(self).map_spec(), p)),
            forall|k: int| 0 <= k < r@.len() ==> job_matches(#[trigger] r@[k], old(self).map_spec()),
            final(self).dirty() == old(self).dirty().filter(|p: IVec3| old(self).map_spec().contains(p) && !mesh_ready(old(self).map_spec(), p)),
            final(self).meshing().to_set() == old(self).meshing().to_set() + old(self).dirty().filter(|p: IVec3| mesh_ready(old(self).map_spec(), p)).to_set(),
            final(self).map_spec() == old(self).map_spec(),
            final(self).to_generate() == old(self).to_generate(),
            final(self).to_despawn() == old(self).to_despawn(),
            final(self).generating() == old(self).generating(),
            final(self).finished_generating() == old(self).finished_generating(),
            final(self).finished_meshing() == old(self).finished_meshing(),
            final(self).next_entity_spec() == old(self).next_entity_spec(),
    {
        let ghost d0 = self.dirty();
        let ghost m = self.map;
        let ghost ms0 = self.meshing();
        let mut jobs: Vec<MeshJob> = Vec::new();
        let mut keep: Vec<IVec3> = Vec::new();
        let mut i: usize = 0;
        while i < self.needs_meshing.len()
            invariant
                self.wf(),
                self.dirty() == d0,
                self.map == m,
                i <= d0.len(),
                jobs@.map_values(|j: MeshJob| j.pos) == d0.take(i as int).filter(|p: IVec3| mesh_ready(m, p)),
                forall|k: int| 0 <= k < jobs@.len() ==> job_matches(#[trigger] jobs@[k], m),
                keep@ == d0.take(i as int).filter(|p: IVec3| m.contains(p) && !mesh_ready(m, p)),
                self.meshing().to_set() == ms0.to_set() + d0.take(i as int).filter(|p: IVec3| mesh_ready(m, p)).to_set(),
                self.to_generate() == old(self).to_generate(),
                self.to_despawn() == old(self).to_despawn(),
                self.generating() == old(self).generating(),
                self.finished_generating() == old(self).finished_generating(),
                self.finished_meshing() == old(self).finished_meshing(),
                self.next_entity == old(self).next_entity,
            decreases d0.len() - i,
        {
            let p = self.needs_meshing[i];
            proof {
                assert(d0.take(i + 1) == d0.take(i as int).push(p));
                reveal(Seq::filter);
                assert(d0.take(i + 1).drop_last() == d0.take(i as int));
            }
            let ghost jobs0 = jobs@;
            let ghost f0 = d0.take(i as int).filter(|p: IVec3| mesh_ready(m, p));
            match self.mesh_job_for(&p) {
                Some(job) => {
                    jobs.push(job);
                    let ghost g0 = self.meshing();
                    if !vec_contains(&self.chunk_queue.currently_meshing, &p) {
                        self.chunk_queue.currently_meshing.push(p);
                        proof {
                            g0.lemma_push_to_set_commute(p);
                            assert forall|a: int, b: int| 0 <= a < b < self.meshing().len() implies self.meshing()[a] != self.meshing()[b] by {
                                if b == g0.len() {
                                    assert(g0[a] == self.meshing()[a]);
                                    assert(g0.contains(g0[a]));
                                }
                            }
                        }
                    } else {
                        proof {
                            assert(g0.to_set().contains(p));
                        }
                    }
                    proof {
                        assert(d0.take(i + 1).filter(|p: IVec3| mesh_ready(m, p)) == f0.push(p));
                        assert(jobs@.map_values(|j: MeshJob| j.pos) =~= jobs0.map_values(|j: MeshJob| j.pos).push(p));
                        f0.lemma_push_to_set_commute(p);
                        assert(self.meshing().to_set() =~= ms0.to_set() + f0.push(p).to_set());
                        assert(d0.take(i + 1).filter(|p: IVec3| m.contains(p) && !mesh_ready(m, p))
                            == d0.take(i as int).filter(|p: IVec3| m.contains(p) && !mesh_ready(m, p)));
                        assert forall|k: int| 0 <= k < jobs@.len() implies job_matches(#[trigger] jobs@[k], m) by {
                            if k < jobs0.len() {
                                assert(jobs@[k] == jobs0[k]);
                            }
                        }
                    }
                },
                None => {
                    if self.map.find(&p).is_some() {
                        keep.push(p);
                    }
                    proof {
                        assert(d0.take(i + 1).filter(|p: IVec3| mesh_ready(m, p)) == f0);
                    }
                },
            }
            proof {
                assert(self.finished_generating() == old(self).finished_generating());
            }
            i = i + 1;
        }
        proof {
            assert(d0.take(i as int) == d0);
            assert forall|a: int, b: int| 0 <= a < b < keep@.len() implies keep@[a] != keep@[b] by {
                lemma_filter_no_dups(d0, |p: IVec3| m.contains(p) && !mesh_ready(m, p));
            }
        }
        self.needs_meshing = keep;
        proof {
            assert(self.finished_generating() == old(self).finished_generating());
        }
        jobs
    }

    /// Upload stage: takes finished meshes in queue order. A mesh whose chunk is still
    /// loaded is uploaded and charged its size, as long as the bytes charged this tick stay
    /// within `budget`; the first mesh of a tick is always taken, so that an oversized mesh
    /// cannot block the queue. A mesh whose chunk is gone is dropped and an empty result
    /// passed over, both uncharged. The stage stops at the first mesh that would overrun the
    /// budget; it and everything after it wait for the next tick.
    #[verifier::loop_isolation(false)]
    pub fn upload_meshes(&mut self, budget: u64) -> (r: UploadTick)
        requires
            old(self).wf(),
        ensures
            final(self).wf(),
            ({
                let q = old(self).finished_meshing();
                let m = old(self).map_spec();
                let k = q.len() - final(self).finished_meshing().len();
                &&& 0 <= k <= q.len()
                &&& final(self).finished_meshing() == q.subrange(k, q.len() as int)
                &&& r.uploads@ == upload_list(q, m, k as nat)
                &&& forall|n: int| 0 <= n < k && #[trigger] charged(q, m, n) ==> upload_list(q, m, n as nat).len() == 0
                    || upload_cost(q, m, n as nat) + charge(q, m, n) <= budget
                &&& k < q.len() ==> charged(q, m, k) && upload_list(q, m, k as nat).len() > 0
                    && upload_cost(q, m, k as nat) + charge(q, m, k) > budget
                &&& upload_cost(q, m, q.len()) > budget && upload_list(q, m, q.len()).len() >= 2 ==> k < q.len()
            }),
            final(self).map_spec() == old(self).map_spec(),
            final(self).to_generate() == old(self).to_generate(),
            final(self).to_despawn() == old(self).to_despawn(),
            final(self).generating() == old(self).generating(),
            final(self).finished_generating() == old(self).finished_generating(),
            final(self).meshing() == old(self).meshing(),
            final(self).dirty() == old(self).dirty(),
            final(self).next_entity_spec() == old(self).next_entity_spec(),
    {
        let ghost q = self.finished_meshing();
        let ghost m = self.map;
        let mut uploads: Vec<(IVec3, u64)> = Vec::new();
        let mut discarded: Vec<IVec3> = Vec::new();
        let mut spent: u64 = 0;
        let mut stop = false;
        let ghost mut n: int = 0;
        while !stop && self.chunk_queue.finished_meshing.len() > 0
            invariant
                self.wf(),
                self.map == m,
                0 <= n <= q.len(),
                self.finished_meshing() == q.subrange(n, q.len() as int),
                spent as int == upload_cost(q, m, n as nat),
                uploads@ == upload_list(q, m, n as nat),
                uploads@.len() == 0 || spent <= budget || uploads@.len() == 1,
                uploads@.len() == 0 ==> spent == 0,
                forall|j: int| 0 <= j < n && #[trigger] charged(q, m, j) ==> upload_list(q, m, j as nat).len() == 0
                    || upload_cost(q, m, j as nat) + charge(q, m, j) <= budget,
                stop ==> n < q.len() && charged(q, m, n) && uploads@.len() > 0 && upload_cost(q, m, n as nat) + charge(q, m, n) > budget,
                self.to_generate() == old(self).to_generate(),
                self.to_despawn() == old(self).to_despawn(),
                self.generating() == old(self).generating(),
                self.finished_generating() == old(self).finished_generating(),
                self.meshing() == old(self).meshing(),
                self.dirty() == old(self).dirty(),
                self.next_entity == old(self).next_entity,
            decreases q.len() - n + (if stop { 0int } else { 1int }),
        {
            let (pos, mesh) = self.chunk_queue.finished_meshing[0];
            proof {
                assert(q[n] == (pos, mesh));
            }
            match mesh {
                None => {
                    self.chunk_queue.finished_meshing.pop_front();
                    proof {
                        assert(uploads@ =~= upload_list(q, m, (n + 1) as nat));
                        n = n + 1;
                    }
                },
                Some(size) => {
                    match self.map.get_chunk(&pos) {
                        None => {
                            self.chunk_queue.finished_meshing.pop_front();
                            discarded.push(pos);
                            proof {
                                assert(uploads@ =~= upload_list(q, m, (n + 1) as nat));
                                n = n + 1;
                            }
                        },
                        Some(chunk) => {
                            if uploads.len() > 0 && (spent > budget || size > budget - spent) {
                                stop = true;
                            } else {
                                self.chunk_queue.finished_meshing.pop_front();
                                uploads.push((pos, chunk.get_entity()));
                                spent = spent + size;
                                proof {
                                    assert(uploads@ =~= upload_list(q, m, (n + 1) as nat));
                                    n = n + 1;
                                }
                            }
                        },
                    }
                },
            }
            proof {
                assert(self.finished_generating() == old(self).finished_generating());
            }
        }
        proof {
            if !stop {
                assert(n == q.len());
                if upload_cost(q, m, q.len()) > budget && upload_list(q, m, q.len()).len() >= 2 {
                    assert(spent > budget);
                }
            }
        }
        UploadTick { uploads, discarded }
    }
}

impl BlockWorld {
    /// Marks chunk `p` as needing a mesh if it is loaded.
    fn mark_if_loaded(&mut self, p: IVec3)
        requires
            old(self).wf(),
        ensures
            final(self).wf(),
            final(self).dirty().to_set() == if old(self).map_spec().contains(p) {
                old(self).dirty().to_set().insert(p)
            } else {
                old(self).dirty().to_set()
            },
            final(self).map_spec() == old(self).map_spec(),
            final(self).to_generate() == old(self).to_generate(),
            final(self).to_despawn() == old(self).to_despawn(),
            final(self).generating() == old(self).generating(),
            final(self).finished_generating() == old(self).finished_generating(),
            final(self).meshing() == old(self).meshing(),
            final(self).finished_meshing() == old(self).finished_meshing(),
            final(self).next_entity_spec() == old(self).next_entity_spec(),
    {
        if self.map.find(&p).is_some() {
            self.mark_dirty(p);
        }
    }

    /// Reacts to an edit of the world cell `pos`: its chunk needs a new mesh, and so does
    /// the neighbour across each chunk face that the cell touches, whose culling depends on
    /// it. Only loaded chunks are marked.
    pub fn on_set_block(&mut self, pos: IVec3)
        requires
            old(self).wf(),
        ensures
            final(self).wf(),
            final(self).dirty().to_set() == old(self).dirty().to_set() + remesh_targets(pos).filter(
                |p: IVec3| old(self).map_spec().contains(p),
            ),
            final(self).map_spec() == old(self).map_spec(),
            final(self).to_generate() == old(self).to_generate(),
            final(self).to_despawn() == old(self).to_despawn(),
            final(self).generating() == old(self).generating(),
            final(self).finished_generating() == old(self).finished_generating(),
            final(self).meshing() == old(self).meshing(),
            final(self).finished_meshing() == old(self).finished_meshing(),
            final(self).next_entity_spec() == old(self).next_entity_spec(),
    {
        let ghost m = self.map;
        let ghost d0 = self.dirty().to_set();
        let ghost loaded = |p: IVec3| m.contains(p);
        let c = crate::pos::pos_to_chunk_pos(pos);
        let l = crate::pos::pos_to_chunk_local(pos);
        proof {
            assert(c == chunk_of(pos));
            assert(l == local_of(pos));
        }
        let ghost t0 = set![c];
        self.mark_if_loaded(c);
        proof {
            assert(self.dirty().to_set() =~= d0 + t0.filter(loaded));
        }
        let ghost tx = if l.x == 0 && can_step(c, Direction::West) {
            t0.insert(stepped(c, Direction::West))
        } else if l.x == 31 && can_step(c, Direction::East) {
            t0.insert(stepped(c, Direction::East))
        } else {
            t0
        };
        if l.x == 0 {
            if let Some(q) = step_checked(c, Direction::West) {
                self.mark_if_loaded(q);
            }
        } else if l.x == 31 {
            if let Some(q) = step_checked(c, Direction::East) {
                self.mark_if_loaded(q);
            }
        }
        proof {
            assert(self.dirty().to_set() =~= d0 + tx.filter(loaded));
        }
        let ghost ty = if l.y == 0 && can_step(c, Direction::Down) {
            tx.insert(stepped(c, Direction::Down))
        } else if l.y == 31 && can_step(c, Direction::Up) {
            tx.insert(stepped(c, Direction::Up))
        } else {
            tx
        };
        if l.y == 0 {
            if let Some(q) = step_checked(c, Direction::Down) {
                self.mark_if_loaded(q);
            }
        } else if l.y == 31 {
            if let Some(q) = step_checked(c, Direction::Up) {
                self.mark_if_loaded(q);
            }
        }
        proof {
            assert(self.dirty().to_set() =~= d0 + ty.filter(loaded));
        }
        let ghost tz = if l.z == 0 && can_step(c, Direction::South) {
            ty.insert(stepped(c, Direction::South))
        } else if l.z == 31 && can_step(c, Direction::North) {
            ty.insert(stepped(c, Direction::North))
        } else {
            ty
        };
        if l.z == 0 {
            if let Some(q) = step_checked(c, Direction::South) {
                self.mark_if_loaded(q);
            }
        } else if l.z == 31 {
            if let Some(q) = step_checked(c, Direction::North) {
                self.mark_if_loaded(q);
            }
        }
        proof {
            assert(self.dirty().to_set() =~= d0 + tz.filter(loaded));
            assert(tz == remesh_targets(pos));
        }
    }

    /// The state of the world cell `pos`. Fails with `UnloadedChunk` when its chunk is not
    /// loaded, and with the chunk's `Uninitialized` error before its data is installed.
    pub fn get_block(&self, pos: &IVec3) -> (r: Result<BlockState, WorldError>)
        requires
            self.wf(),
        ensures
            !self.map_spec().contains(chunk_of(*pos)) ==> r == Err::<BlockState, WorldError>(WorldError::UnloadedChunk(chunk_of(*pos))),
            self.map_spec().contains(chunk_of(*pos)) && !self.map_spec().ready_at(chunk_of(*pos)) ==> r
                == Err::<BlockState, WorldError>(WorldError::Chunk(ChunkError::Uninitialized(chunk_of(*pos)))),
            self.map_spec().ready_at(chunk_of(*pos)) ==> (r matches Ok(b) && b@ == self.map_spec().data_at(
                chunk_of(*pos),
            ).state_at(cell_of(*pos))),
    {
        let c = crate::pos::pos_to_chunk_pos(*pos);
        let l = crate::pos::pos_to_chunk_local(*pos);
        proof {
            assert(c == chunk_of(*pos));
            assert(local_in_chunk(l));
            assert(local_index(l) == cell_of(*pos));
        }
        match self.map.get_chunk(&c) {
            None => Err(WorldError::UnloadedChunk(c)),
            Some(chunk) => match chunk.get_block(l) {
                Ok(b) => Ok(b),
                Err(e) => Err(WorldError::Chunk(e)),
            },
        }
    }

    /// Writes `block` into the world cell `pos` and returns the state it held; fails as
    /// [`BlockWorld::get_block`] does, changing nothing. On success the edited chunk, and
    /// each neighbour across a face that the cell touches, need a new mesh.
    pub fn set_block(&mut self, pos: &IVec3, block: BlockState) -> (r: Result<BlockState, WorldError>)
        requires
            old(self).wf(),
        ensures
            final(self).wf(),
            !old(self).map_spec().contains(chunk_of(*pos)) ==> r == Err::<BlockState, WorldError>(
                WorldError::UnloadedChunk(chunk_of(*pos)),
            ) && *final(self) == *old(self),
            old(self).map_spec().contains(chunk_of(*pos)) && !old(self).map_spec().ready_at(chunk_of(*pos)) ==> r
                == Err::<BlockState, WorldError>(WorldError::Chunk(ChunkError::Uninitialized(chunk_of(*pos))))
                && final(self).map_spec().chunks() == old(self).map_spec().chunks() && final(self).dirty() == old(self).dirty(),
            old(self).map_spec().ready_at(chunk_of(*pos)) ==> (r matches Ok(b) && b@ == old(self).map_spec().data_at(
                chunk_of(*pos),
            ).state_at(cell_of(*pos))),
            old(self).map_spec().ready_at(chunk_of(*pos)) ==> final(self).map_spec().ready_at(chunk_of(*pos))
                && final(self).map_spec().data_at(chunk_of(*pos)).states() == old(self).map_spec().data_at(
                chunk_of(*pos),
            ).states().update(cell_of(*pos), block@),
            old(self).map_spec().ready_at(chunk_of(*pos)) ==> final(self).dirty().to_set() == old(self).dirty().to_set()
                + remesh_targets(*pos).filter(|p: IVec3| old(self).map_spec().contains(p)),
            final(self).loaded() == old(self).loaded(),
            forall|p: IVec3| p != chunk_of(*pos) && #[trigger] old(self).map_spec().ready_at(p) ==> final(self).map_spec().ready_at(p)
                && final(self).map_spec().data_at(p) == old(self).map_spec().data_at(p),
            final(self).to_generate() == old(self).to_generate(),
            final(self).to_despawn() == old(self).to_despawn(),
            final(self).generating() == old(self).generating(),
            final(self).finished_generating() == old(self).finished_generating(),
            final(self).meshing() == old(self).meshing(),
            final(self).finished_meshing() == old(self).finished_meshing(),
            final(self).next_entity_spec() == old(self).next_entity_spec(),
    {
        let c = crate::pos::pos_to_chunk_pos(*pos);
        let l = crate::pos::pos_to_chunk_local(*pos);
        proof {
            assert(c == chunk_of(*pos));
            assert(local_in_chunk(l));
            assert(local_index(l) == cell_of(*pos));
        }
        let i = match self.map.find(&c) {
            None => return Err(WorldError::UnloadedChunk(c)),
            Some(i) => i,
        };
        let ghost m0 = self.map;
        let res = self.map.chunk_set_block(i, l, block);
        proof {
            Self::lemma_same_positions(m0, self.map);
            self.map.lemma_index(c, i as int);
            assert forall|p: IVec3| p != c && #[trigger] m0.ready_at(p) implies self.map.ready_at(p)
                && self.map.data_at(p) == m0.data_at(p) by {
                let j = m0.index_of(p);
                m0.lemma_index(p, j);
                assert(j != i);
                assert(self.map.chunks()[j] == m0.chunks()[j]);
                self.map.lemma_index(p, j);
            }
            assert forall|a: int| 0 <= a < self.map.chunks().len() implies (#[trigger] self.map.chunks()[a]).entity_spec() < self.next_entity by {
                if a != i {
                    assert(self.map.chunks()[a] == m0.chunks()[a]);
                }
            }
            assert(self.finished_generating() == old(self).finished_generating());
        }
        match res {
            Err(e) => {
                proof {
                    assert(self.map.chunks() =~= m0.chunks());
                }
                Err(WorldError::Chunk(e))
            },
            Ok(b) => {
                self.on_set_block(*pos);
                Ok(b)
            },
        }
    }
}

/// Chunks within this many chunk lengths (Euclidean) of the player's chunk are loaded.
pub const SPAWN_DISTANCE: i32 = 8;

/// Chunks farther than this many chunk lengths from the player's chunk are unloaded.
pub const DESPAWN_DISTANCE: i32 = 12;

/// Chunks within this many chunk lengths (on each axis) of the joining player are loaded.
pub const JOIN_RADIUS: i32 = 5;

/// Offset number `t` of a cube of edge `e = 2r + 1` centred on zero, with the first axis
/// outermost and the last innermost.
pub open spec fn cube_offset(t: int, r: int, e: int) -> (int, int, int) {
    (t / (e * e) - r, (t / e) % e - r, t % e - r)
}

/// `p` moved by `(dx, dy, dz)`, if every coordinate fits in `i32`.
pub open spec fn moved(p: IVec3, dx: int, dy: int, dz: int) -> Option<IVec3> {
    if i32::MIN <= p.x + dx <= i32::MAX && i32::MIN <= p.y + dy <= i32::MAX && i32::MIN <= p.z + dz <= i32::MAX {
        Some(IVec3 { x: (p.x + dx) as i32, y: (p.y + dy) as i32, z: (p.z + dz) as i32 })
    } else {
        None
    }
}

/// The chunks that a move to `center` asks to generate, over the first `n` offsets of the
/// cube of radius 8 (x outermost, z innermost): those within distance 8, neither loaded
/// nor being generated.
pub open spec fn spawn_candidates(w: BlockWorld, center: IVec3, n: nat) -> Seq<IVec3>
    decreases n,
{
    if n == 0 {
        seq![]
    } else {
        let (dx, dy, dz) = cube_offset(n - 1, 8, 17);
        let prev = spawn_candidates(w, center, (n - 1) as nat);
        match moved(center, dx, dy, dz) {
            Some(p) => if dx * dx + dy * dy + dz * dz <= 64 && !w.generating().contains(p) && !w.map_spec().contains(p) {
                prev.push(p)
            } else {
                prev
            },
            None => prev,
        }
    }
}

/// The chunks that a join at `center` asks to generate, over the first `n` offsets of the
/// cube of radius 5 (x outermost, then z, then y): those not loaded.
pub open spec fn join_candidates(w: BlockWorld, center: IVec3, n: nat) -> Seq<IVec3>
    decreases n,
{
    if n == 0 {
        seq![]
    } else {
        let (dx, dz, dy) = cube_offset(n - 1, 5, 11);
        let prev = join_candidates(w, center, (n - 1) as nat);
        match moved(center, dx, dy, dz) {
            Some(p) => if !w.map_spec().contains(p) {
                prev.push(p)
            } else {
                prev
            },
            None => prev,
        }
    }
}

/// The squared distance between two chunk positions.
pub open spec fn dist2(a: IVec3, b: IVec3) -> int {
    (a.x - b.x) * (a.x - b.x) + (a.y - b.y) * (a.y - b.y) + (a.z - b.z) * (a.z - b.z)
}

/// `p` moved by `(dx, dy, dz)` with each step in `[-16, 16]`, if it fits.
fn move_checked(p: IVec3, dx: i32, dy: i32, dz: i32) -> (r: Option<IVec3>)
    requires
        -16 <= dx <= 16 && -16 <= dy <= 16 && -16 <= dz <= 16,
    ensures
        r == moved(p, dx as int, dy as int, dz as int),
{
    let x = p.x as i64 + dx as i64;
    let y = p.y as i64 + dy as i64;
    let z = p.z as i64 + dz as i64;
    if x < i32::MIN as i64 || x > i32::MAX as i64 || y < i32::MIN as i64 || y > i32::MAX as i64
        || z < i32::MIN as i64 || z > i32::MAX as i64 {
        None
    } else {
        Some(IVec3 { x: x as i32, y: y as i32, z: z as i32 })
    }
}

/// The squared distance between two chunk positions, exactly.
fn dist2_exec(a: IVec3, b: IVec3) -> (r: i128)
    ensures
        r == dist2(a, b),
{
    let dx = a.x as i128 - b.x as i128;
    let dy = a.y as i128 - b.y as i128;
    let dz = a.z as i128 - b.z as i128;
    assert(0 <= dx * dx <= 0x1_0000_0000_0000_0000) by (nonlinear_arith)
        requires -0x1_0000_0000 <= dx <= 0x1_0000_0000;
    assert(0 <= dy * dy <= 0x1_0000_0000_0000_0000) by (nonlinear_arith)
        requires -0x1_0000_0000 <= dy <= 0x1_0000_0000;
    assert(0 <= dz * dz <= 0x1_0000_0000_0000_0000) by (nonlinear_arith)
        requires -0x1_0000_0000 <= dz <= 0x1_0000_0000;
    dx * dx + dy * dy + dz * dz
}

impl BlockWorld {
    /// Reacts to the player moving from chunk `old_chunk` to chunk `new_chunk`. When the
    /// chunk changed, asks to generate every chunk within distance 8 of the new one that is
    /// neither loaded nor being generated, and to remove every loaded chunk farther than 12.
    #[verifier::loop_isolation(false)]
    pub fn spawn_and_despawn_chunks(&mut self, old_chunk: IVec3, new_chunk: IVec3)
        requires
            old(self).wf(),
        ensures
            final(self).wf(),
            old_chunk == new_chunk ==> *final(self) == *old(self),
            old_chunk != new_chunk ==> final(self).to_generate() == old(self).to_generate() + spawn_candidates(*old(self), new_chunk, 4913),
            old_chunk != new_chunk ==> final(self).to_despawn() == old(self).to_despawn() + old(self).map_spec().chunks().map_values(
                |c: Chunk| c.pos_spec(),
            ).filter(|p: IVec3| dist2(new_chunk, p) > 144),
            final(self).map_spec() == old(self).map_spec(),
            final(self).generating() == old(self).generating(),
            final(self).finished_generating() == old(self).finished_generating(),
            final(self).meshing() == old(self).meshing(),
            final(self).finished_meshing() == old(self).finished_meshing(),
            final(self).dirty() == old(self).dirty(),
            final(self).next_entity_spec() == old(self).next_entity_spec(),
    {
        if old_chunk == new_chunk {
            return;
        }
        let ghost w0 = *self;
        let mut t: i32 = 0;
        while t < 4913
            invariant
                0 <= t <= 4913,
                self.wf(),
                self.map == w0.map,
                self.to_generate() == w0.to_generate() + spawn_candidates(w0, new_chunk, t as nat),
                self.to_despawn() == w0.to_despawn(),
                self.generating() == w0.generating(),
                self.finished_generating() == w0.finished_generating(),
                self.meshing() == w0.meshing(),
                self.finished_meshing() == w0.finished_meshing(),
                self.dirty() == w0.dirty(),
                self.next_entity == w0.next_entity,
            decreases 4913 - t,
        {
            assert(0 <= t / 289 <= 16) by (nonlinear_arith)
                requires 0 <= t < 4913;
            let dx = t / 289 - 8;
            let dy = (t / 17) % 17 - 8;
            let dz = t % 17 - 8;
            assert(17int * 17 == 289);
            assert(cube_offset(t as int, 8, 17) == (dx as int, dy as int, dz as int));
            assert(0 <= dx * dx <= 64 && 0 <= dy * dy <= 64 && 0 <= dz * dz <= 64) by (nonlinear_arith)
                requires -8 <= dx <= 8, -8 <= dy <= 8, -8 <= dz <= 8;
            if dx * dx + dy * dy + dz * dz <= 64 {
                if let Some(p) = move_checked(new_chunk, dx, dy, dz) {
                    if !self.is_queued_for_generation(&p) && self.map.find(&p).is_none() {
                        self.queue_chunk_generation(p);
                    }
                }
            }
            proof {
                assert(self.to_generate() =~= w0.to_generate() + spawn_candidates(w0, new_chunk, (t + 1) as nat));
            }
            t = t + 1;
        }
        let positions = self.map.iter();
        let ghost ps = positions@;
        let mut i: usize = 0;
        while i < positions.len()
            invariant
                i <= ps.len(),
                positions@ == ps,
                ps == w0.map_spec().chunks().map_values(|c: Chunk| c.pos_spec()),
                self.wf(),
                self.map == w0.map,
                self.to_generate() == w0.to_generate() + spawn_candidates(w0, new_chunk, 4913),
                self.to_despawn() == w0.to_despawn() + ps.take(i as int).filter(|p: IVec3| dist2(new_chunk, p) > 144),
                self.generating() == w0.generating(),
                self.finished_generating() == w0.finished_generating(),
                self.meshing() == w0.meshing(),
                self.finished_meshing() == w0.finished_meshing(),
                self.dirty() == w0.dirty(),
                self.next_entity == w0.next_entity,
            decreases ps.len() - i,
        {
            let p = positions[i];
            proof {
                reveal(Seq::filter);
                assert(ps.take(i + 1).drop_last() == ps.take(i as int));
            }
            if dist2_exec(new_chunk, p) > 144 {
                self.queue_chunk_despawn(p);
            }
            proof {
                assert(self.to_despawn() =~= w0.to_despawn() + ps.take(i + 1).filter(|p: IVec3| dist2(new_chunk, p) > 144));
            }
            i = i + 1;
        }
        proof {
            assert(ps.take(i as int) == ps);
        }
    }

    /// Reacts to a player joining at chunk `chunk_pos`: asks to generate every chunk in the
    /// cube of radius 5 around it that is not loaded.
    #[verifier::loop_isolation(false)]
    pub fn on_world_join(&mut self, chunk_pos: IVec3)
        requires
            old(self).wf(),
        ensures
            final(self).wf(),
            final(self).to_generate() == old(self).to_generate() + join_candidates(*old(self), chunk_pos, 1331),
            final(self).to_despawn() == old(self).to_despawn(),
            final(self).map_spec() == old(self).map_spec(),
            final(self).generating() == old(self).generating(),
            final(self).finished_generating() == old(self).finished_generating(),
            final(self).meshing() == old(self).meshing(),
            final(self).finished_meshing() == old(self).finished_meshing(),
            final(self).dirty() == old(self).dirty(),
            final(self).next_entity_spec() == old(self).next_entity_spec(),
    {
        let ghost w0 = *self;
        let mut t: i32 = 0;
        while t < 1331
            invariant
                0 <= t <= 1331,
                self.wf(),
                self.map == w0.map,
                self.to_generate() == w0.to_generate() + join_candidates(w0, chunk_pos, t as nat),
                self.to_despawn() == w0.to_despawn(),
                self.generating() == w0.generating(),
                self.finished_generating() == w0.finished_generating(),
                self.meshing() == w0.meshing(),
                self.finished_meshing() == w0.finished_meshing(),
                self.dirty() == w0.dirty(),
                self.next_entity == w0.next_entity,
            decreases 1331 - t,
        {
            assert(0 <= t / 121 <= 10) by (nonlinear_arith)
                requires 0 <= t < 1331;
            let dx = t / 121 - 5;
            let dz = (t / 11) % 11 - 5;
            let dy = t % 11 - 5;
            assert(11int * 11 == 121);
            assert(cube_offset(t as int, 5, 11) == (dx as int, dz as int, dy as int));
            if let Some(p) = move_checked(chunk_pos, dx, dy, dz) {
                if self.map.find(&p).is_none() {
                    self.queue_chunk_generation(p);
                }
            }
            proof {
                assert(self.to_generate() =~= w0.to_generate() + join_candidates(w0, chunk_pos, (t + 1) as nat));
            }
            t = t + 1;
        }
    }
}

/// A meshing task's snapshots hold the same cells as the chunks of the map.
pub open spec fn job_matches(job: MeshJob, m: ChunkMap) -> bool {
    let p = job.pos;
    &&& mesh_ready(m, p)
    &&& job.data.wf() && job.data.states() == m.data_at(p).states()
    &&& job.north.wf() && job.north.states() == m.data_at(stepped(p, Direction::North)).states()
    &&& job.south.wf() && job.south.states() == m.data_at(stepped(p, Direction::South)).states()
    &&& job.east.wf() && job.east.states() == m.data_at(stepped(p, Direction::East)).states()
    &&& job.west.wf() && job.west.states() == m.data_at(stepped(p, Direction::West)).states()
    &&& job.up.wf() && job.up.states() == m.data_at(stepped(p, Direction::Up)).states()
    &&& job.down.wf() && job.down.states() == m.data_at(stepped(p, Direction::Down)).states()
}

proof fn lemma_filter_no_dups(s: Seq<IVec3>, f: spec_fn(IVec3) -> bool)
    requires
        no_dups(s),
    ensures
        no_dups(s.filter(f)),
    decreases s.len(),
{
    reveal(Seq::filter);
    if s.len() > 0 {
        let t = s.drop_last();
        assert forall|a: int, b: int| 0 <= a < b < t.len() implies t[a] != t[b] by {
            assert(t[a] == s[a] && t[b] == s[b]);
        }
        lemma_filter_no_dups(t, f);
        if f(s.last()) {
            let ft = t.filter(f);
            assert forall|a: int, b: int| 0 <= a < b < ft.len() + 1 implies ft.push(s.last())[a] != ft.push(s.last())[b] by {
                if b == ft.len() {
                    assert(ft.contains(ft[a]));
                    t.lemma_filter_contains_rev(f, ft[a]);
                    assert(t.contains(ft[a]));
                    if ft[a] == s.last() {
                        let c = choose|c: int| 0 <= c < t.len() && t[c] == ft[a];
                        assert(s[c] == s[s.len() - 1]);
                    }
                }
            }
        }
    }
}

/// Removing one element from a sequence without repeats removes exactly that element.
proof fn lemma_remove_unique(s: Seq<IVec3>, i: int)
    requires
        no_dups(s),
        0 <= i < s.len(),
    ensures
        no_dups(s.remove(i)),
        s.remove(i).to_set() == s.to_set().remove(s[i]),
{
    let t = s.remove(i);
    assert forall|a: int, b: int| 0 <= a < b < t.len() implies t[a] != t[b] by {
        let a2 = if a < i { a } else { a + 1 };
        let b2 = if b < i { b } else { b + 1 };
        assert(t[a] == s[a2] && t[b] == s[b2]);
    }
    assert forall|p: IVec3| t.to_set().contains(p) <==> (s.to_set().contains(p) && p != s[i]) by {
        if t.to_set().contains(p) {
            let a = choose|a: int| 0 <= a < t.len() && t[a] == p;
            let a2 = if a < i { a } else { a + 1 };
            assert(t[a] == s[a2]);
            assert(s.contains(p));
        }
        if s.to_set().contains(p) && p != s[i] {
            let a = choose|a: int| 0 <= a < s.len() && s[a] == p;
            let a2 = if a < i { a } else { a - 1 };
            assert(t[a2] == s[a]);
            assert(t.contains(p));
        }
    }
    assert(t.to_set() =~= s.to_set().remove(s[i]));
}

/// The position of `p` in `v`, if it is there.
fn position_of(v: &Vec<IVec3>, p: &IVec3) -> (r: Option<usize>)
    ensures
        r matches Some(i) ==> i < v@.len() && v@[i as int] == *p,
        r is None <==> !v@.contains(*p),
{
    let mut i: usize = 0;
    while i < v.len()
        invariant
            i <= v@.len(),
            forall|j: int| 0 <= j < i ==> v@[j] != *p,
        decreases v@.len() - i,
    {
        if v[i] == *p {
            return Some(i);
        }
        i = i + 1;
    }
    None
}

/// Whether `v` holds `p`.
fn vec_contains(v: &Vec<IVec3>, p: &IVec3) -> (r: bool)
    ensures
        r == v@.contains(*p),
{
    let mut i: usize = 0;
    while i < v.len()
        invariant
            i <= v@.len(),
            forall|j: int| 0 <= j < i ==> v@[j] != *p,
        decreases v@.len() - i,
    {
        if v[i] == *p {
            return true;
        }
        i = i + 1;
    }
    false
}


/// A queued position that is not loaded is among those a generation intake creates.
proof fn lemma_spawn_list_contains(held: Set<IVec3>, q: Seq<IVec3>, p: IVec3)
    requires
        q.contains(p),
        !held.contains(p),
    ensures
        spawn_list(held, q).contains(p),
    decreases q.len(),
{
    if q.last() != p {
        let t = q.drop_last();
        let i = choose|i: int| 0 <= i < q.len() && q[i] == p;
        assert(t[i] == p);
        lemma_spawn_list_contains(held, t, p);
        let prev = spawn_list(held, t);
        if !(held.contains(q.last()) || prev.contains(q.last())) {
            let k = choose|k: int| 0 <= k < prev.len() && prev[k] == p;
            assert(prev.push(q.last())[k] == p);
        }
    } else {
        let prev = spawn_list(held, q.drop_last());
        if !prev.contains(p) {
            assert(prev.push(p)[prev.len() as int] == p);
        }
    }
}

/// Liveness of the pipeline for one chunk. A position asked for while not loaded gets a
/// chunk and an in-flight generation task at the next intake. When that task's result is
/// received and installed, the chunk is initialised and needs a mesh. When its six
/// neighbours are initialised as well, the next meshing submission gives exactly one
/// meshing task for it.
pub proof fn lemma_pipeline_liveness(
    w0: BlockWorld,
    w1: BlockWorld,
    w2: BlockWorld,
    w3: BlockWorld,
    jobs: Seq<IVec3>,
    p: IVec3,
    data: ChunkData,
)
    requires
        w0.to_generate().contains(p),
        !w0.loaded().contains(p),
        w1.loaded() == w0.loaded() + spawn_list(w0.loaded(), w0.to_generate()).to_set(),
        w1.generating().to_set() == w0.generating().to_set() + spawn_list(w0.loaded(), w0.to_generate()).to_set(),
        w2.map_spec() == w1.map_spec(),
        w2.finished_generating() == w1.finished_generating().push((p, data)),
        w2.loaded().contains(p) ==> w3.map_spec().ready_at(p),
        w3.dirty().to_set() == w2.dirty().to_set() + Set::new(|q: IVec3|
            w2.loaded().contains(q) && exists|k: int| 0 <= k < w2.finished_generating().len()
                && (#[trigger] w2.finished_generating()[k]).0 == q),
        w3.wf(),
        mesh_ready(w3.map_spec(), p),
        jobs == w3.dirty().filter(|q: IVec3| mesh_ready(w3.map_spec(), q)),
    ensures
        w1.loaded().contains(p),
        w1.generating().contains(p),
        w3.map_spec().ready_at(p),
        w3.dirty().contains(p),
        jobs.contains(p),
        no_dups(jobs),
{
    lemma_spawn_list_contains(w0.loaded(), w0.to_generate(), p);
    let sp = spawn_list(w0.loaded(), w0.to_generate());
    assert(sp.to_set().contains(p));
    assert(w1.generating().to_set().contains(p));
    assert(w2.loaded() == w1.loaded());
    let n = w1.finished_generating().len();
    assert(w2.finished_generating()[n as int].0 == p);
    assert(w3.dirty().to_set().contains(p));
    w3.dirty().filter_lemma(|q: IVec3| mesh_ready(w3.map_spec(), q));
    let i = choose|i: int| 0 <= i < w3.dirty().len() && w3.dirty()[i] == p;
    assert(w3.dirty().filter(|q: IVec3| mesh_ready(w3.map_spec(), q)).contains(w3.dirty()[i]));
    lemma_filter_no_dups(w3.dirty(), |q: IVec3| mesh_ready(w3.map_spec(), q));
}

/// Despawning a loaded chunk and asking for its position again, with nothing else queued,
/// makes the next generation intake create a chunk there (no `DuplicateChunk`), and the
/// handle it gets is newer than the removed chunk's.
pub proof fn lemma_despawn_then_regenerate(before: BlockWorld, after_despawn: BlockWorld, requeued: BlockWorld, p: IVec3)
    requires
        before.wf(),
        before.map_spec().contains(p),
        before.to_despawn().contains(p),
        after_despawn.loaded() == before.loaded() - before.to_despawn().to_set(),
        after_despawn.next_entity_spec() == before.next_entity_spec(),
        after_despawn.to_generate().len() == 0,
        requeued.to_generate() == after_despawn.to_generate().push(p),
        requeued.map_spec() == after_despawn.map_spec(),
        requeued.next_entity_spec() == after_despawn.next_entity_spec(),
    ensures
        spawn_list(requeued.loaded(), requeued.to_generate()) == seq![p],
        before.map_spec().chunk(p).entity_spec() < requeued.next_entity_spec(),
{
    let q = requeued.to_generate();
    assert(q.drop_last() =~= Seq::<IVec3>::empty());
    assert(before.to_despawn().to_set().contains(p));
    assert(requeued.loaded() == after_despawn.loaded());
    assert(!requeued.loaded().contains(p));
    assert(spawn_list(requeued.loaded(), q.drop_last()) =~= Seq::<IVec3>::empty());
    assert(seq![p] =~= Seq::<IVec3>::empty().push(p));
    let i = before.map_spec().index_of(p);
    assert(before.map_spec().chunks()[i].entity_spec() < before.next_entity_spec());
}

} // verus!
