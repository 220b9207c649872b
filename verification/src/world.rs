//! An in-memory world: dense chunks for the common states, a sparse map
//! for the rest, and a buffer for each block that carries extra data.

use vstd::prelude::*;
use std::collections::hash_map::Entry;
use std::collections::HashMap;
use crate::block::{
    Error, HashSystem, IdOperate, Meta, ReadExact, RegistryModel, Result, WriteExact,
};
use crate::chunk::{cell_index, lemma_cell_index_injective, Chunk};
use crate::pos::{lemma_encode_decode, BlockPos, ChunkPos};

verus! {

broadcast use vstd::std_specs::hash::group_hash_axioms;

/// Whether a chunk has a byte for the block at `pos`: chunks are 256
/// blocks high and start at height 0.
pub open spec fn has_dense_cell(pos: BlockPos) -> bool {
    0 <= pos.y() < 256
}

/// Whether `state` is kept in the byte that a chunk has for `pos`: it
/// must be a block, fit a byte, and `pos` must have such a byte.
pub open spec fn is_dense(pos: BlockPos, state: u16) -> bool {
    1 <= state <= 255 && has_dense_cell(pos)
}

/// Where the byte for `pos` stands in its chunk.
pub open spec fn cell_of(pos: BlockPos) -> int {
    cell_index(pos.x() % 16, pos.y(), pos.z() % 16)
}

/// The bytes of a chunk without blocks.
pub open spec fn no_blocks() -> Seq<u8> {
    Seq::new(65536, |i: int| 0u8)
}

/// A position that has a byte in a chunk has it within the 65536 bytes.
pub proof fn lemma_cell_in_chunk(pos: BlockPos)
    requires
        has_dense_cell(pos),
    ensures
        0 <= cell_of(pos) < 65536,
{
}

/// What a world holds: the bytes of the chunks that exist, the sparse map
/// of the states that are not kept in chunks, the buffers, and the
/// registry.
pub struct WorldModel {
    pub chunks: Map<ChunkPos, Seq<u8>>,
    pub overflow: Map<BlockPos, u16>,
    pub buffers: Map<BlockPos, Seq<u8>>,
    pub registry: RegistryModel,
}

impl WorldModel {
    /// A world without blocks, buffers or chunks.
    pub open spec fn empty(registry: RegistryModel) -> WorldModel {
        WorldModel {
            chunks: Map::empty(),
            overflow: Map::empty(),
            buffers: Map::empty(),
            registry,
        }
    }

    /// Every chunk has a byte for each of its blocks.
    pub open spec fn wf(self) -> bool {
        forall|c: ChunkPos|
            self.chunks.contains_key(c) ==> (#[trigger] self.chunks[c]).len() == 65536
    }

    /// The byte that the chunks hold for `pos`; 0 where the chunk does not
    /// exist or has no byte for the position.
    pub open spec fn dense_at(self, pos: BlockPos) -> u8 {
        if has_dense_cell(pos) && self.chunks.contains_key(pos.chunk()) {
            self.chunks[pos.chunk()][cell_of(pos)]
        } else {
            0
        }
    }

    /// The state at `pos`: the entry of the sparse map if there is one,
    /// else the byte of the chunk; 0 where there is no block.
    pub open spec fn state_at(self, pos: BlockPos) -> u16 {
        if self.overflow.contains_key(pos) {
            self.overflow[pos]
        } else {
            self.dense_at(pos) as u16
        }
    }

    /// Whether there is a block at `pos`.
    pub open spec fn contains_block(self, pos: BlockPos) -> bool {
        self.state_at(pos) != 0
    }

    /// The buffer at `pos`, if there is one.
    pub open spec fn buffer_at(self, pos: BlockPos) -> Option<Seq<u8>> {
        if self.buffers.contains_key(pos) {
            Some(self.buffers[pos])
        } else {
            None
        }
    }

    /// Buffers are found only where the state asks for one.
    pub open spec fn buffers_follow_states(self) -> bool {
        forall|pos: BlockPos| #[trigger]
            self.buffers.contains_key(pos) ==> self.registry.needs_buffer(self.state_at(pos))
    }

    /// The chunks after `byte` is written into the chunk of `pos`, which is
    /// made, without blocks, if it does not exist.
    pub open spec fn with_cell(self, pos: BlockPos, byte: u8) -> Map<ChunkPos, Seq<u8>> {
        let before = if self.chunks.contains_key(pos.chunk()) {
            self.chunks[pos.chunk()]
        } else {
            no_blocks()
        };
        self.chunks.insert(pos.chunk(), before.update(cell_of(pos), byte))
    }

    /// The world after `state` is written at `pos`.
    ///
    /// State 0 leaves the sparse map, and the byte in the chunk, if the
    /// chunk exists, becomes 0. A state that is kept in chunks goes into
    /// the chunk, which is made if it does not exist, and leaves the sparse
    /// map. Every other state goes into the sparse map, and the chunks
    /// stay as they are.
    ///
    /// The position gets a fresh, empty buffer if the state needs one and
    /// loses its buffer if not.
    pub open spec fn write(self, pos: BlockPos, state: u16) -> WorldModel {
        WorldModel {
            chunks: if is_dense(pos, state) {
                self.with_cell(pos, state as u8)
            } else if state == 0 && has_dense_cell(pos) && self.chunks.contains_key(pos.chunk()) {
                self.with_cell(pos, 0)
            } else {
                self.chunks
            },
            overflow: if state == 0 || is_dense(pos, state) {
                self.overflow.remove(pos)
            } else {
                self.overflow.insert(pos, state)
            },
            buffers: if self.registry.needs_buffer(state) {
                self.buffers.insert(pos, Seq::empty())
            } else {
                self.buffers.remove(pos)
            },
            registry: self.registry,
        }
    }

    /// The world after the content of the buffer at `pos` is replaced.
    pub open spec fn with_buffer(self, pos: BlockPos, content: Seq<u8>) -> WorldModel {
        WorldModel {
            chunks: self.chunks,
            overflow: self.overflow,
            buffers: self.buffers.insert(pos, content),
            registry: self.registry,
        }
    }

    /// What is written at a position is what is read there afterwards, for
    /// every state: 0, the states that fit a byte, and the larger ones;
    /// and whatever the position held before.
    pub proof fn lemma_write_then_read(self, pos: BlockPos, state: u16)
        requires
            self.wf(),
        ensures
            self.write(pos, state).state_at(pos) == state,
            self.write(pos, state).contains_block(pos) == (state != 0),
    {
        if has_dense_cell(pos) {
            lemma_cell_in_chunk(pos);
        }
    }

    /// A write leaves the state and the buffer of every other position as
    /// they were.
    pub proof fn lemma_write_elsewhere(self, pos: BlockPos, state: u16, other: BlockPos)
        requires
            self.wf(),
            other != pos,
        ensures
            self.write(pos, state).state_at(other) == self.state_at(other),
            self.write(pos, state).buffer_at(other) == self.buffer_at(other),
    {
        if has_dense_cell(pos) {
            lemma_cell_in_chunk(pos);
        }
        if has_dense_cell(other) {
            lemma_cell_in_chunk(other);
        }
        if has_dense_cell(pos) && has_dense_cell(other) && pos.chunk() == other.chunk() {
            if cell_of(pos) == cell_of(other) {
                lemma_cell_identity(pos, other);
            }
        }
    }

    /// After a state that needs a buffer is written, the buffer at the
    /// position is empty, whatever a buffer there held before; after any
    /// other state is written, the position has no buffer.
    pub proof fn lemma_write_resets_buffer(self, pos: BlockPos, state: u16)
        ensures
            self.registry.needs_buffer(state) ==> self.write(pos, state).buffer_at(pos) == Some(
                Seq::<u8>::empty(),
            ),
            !self.registry.needs_buffer(state) ==> self.write(pos, state).buffer_at(pos)
                is None,
    {
    }

    /// A write keeps the world well-formed and keeps buffers where the
    /// states ask for them. It takes no chunk away, and it makes one chunk
    /// at most: that of the position, for a state that is kept there.
    pub proof fn lemma_write_preserves(self, pos: BlockPos, state: u16)
        requires
            self.wf(),
        ensures
            self.write(pos, state).wf(),
            self.buffers_follow_states() ==> self.write(pos, state).buffers_follow_states(),
            self.write(pos, state).chunks.dom() == if is_dense(pos, state) {
                self.chunks.dom().insert(pos.chunk())
            } else {
                self.chunks.dom()
            },
    {
        let after = self.write(pos, state);
        if has_dense_cell(pos) {
            lemma_cell_in_chunk(pos);
        }
        assert(after.chunks.dom() =~= if is_dense(pos, state) {
            self.chunks.dom().insert(pos.chunk())
        } else {
            self.chunks.dom()
        });
        assert forall|c: ChunkPos| after.chunks.contains_key(c) implies (
        #[trigger] after.chunks[c]).len() == 65536 by {
            if c != pos.chunk() {
                assert(self.chunks.contains_key(c));
            }
        }
        if self.buffers_follow_states() {
            self.lemma_write_then_read(pos, state);
            assert forall|p: BlockPos| #[trigger] after.buffers.contains_key(p) implies
                after.registry.needs_buffer(after.state_at(p)) by {
                if p != pos {
                    assert(self.buffers.contains_key(p));
                    self.lemma_write_elsewhere(pos, state, p);
                }
            }
        }
    }

    /// A state that does not fit a byte is written without touching the
    /// chunks, and a later write of a dense state elsewhere leaves it in
    /// place.
    pub proof fn lemma_overflow_survives_dense_write(
        self,
        pos: BlockPos,
        state: u16,
        other: BlockPos,
        dense: u16,
    )
        requires
            self.wf(),
            state > 255,
            other != pos,
        ensures
            self.write(pos, state).chunks == self.chunks,
            self.write(pos, state).write(other, dense).state_at(pos) == state,
            self.write(pos, state).write(other, dense).state_at(other) == dense,
    {
        let once = self.write(pos, state);
        self.lemma_write_preserves(pos, state);
        self.lemma_write_then_read(pos, state);
        once.lemma_write_elsewhere(other, dense, pos);
        once.lemma_write_then_read(other, dense);
    }
}

/// The key under which the chunk at `c` is kept.
pub open spec fn spec_chunk_key(c: ChunkPos) -> u64 {
    ((c.x() + 0x8000_0000) * 0x1_0000_0000 + (c.z() + 0x8000_0000)) as u64
}

/// Different chunks have different keys.
pub proof fn lemma_chunk_key_injective(a: ChunkPos, b: ChunkPos)
    requires
        spec_chunk_key(a) == spec_chunk_key(b),
    ensures
        a == b,
{
    ChunkPos::lemma_eq_by_coordinates(a, b);
}

/// Two positions with a byte in the same chunk at the same place are the
/// same position.
pub proof fn lemma_cell_identity(p: BlockPos, q: BlockPos)
    requires
        p.chunk() == q.chunk(),
        has_dense_cell(p),
        has_dense_cell(q),
        cell_of(p) == cell_of(q),
    ensures
        p == q,
{
    p.lemma_chunk();
    q.lemma_chunk();
    lemma_cell_index_injective(
        p.x() % 16,
        p.y(),
        p.z() % 16,
        q.x() % 16,
        q.y(),
        q.z() % 16,
    );
    BlockPos::lemma_eq_by_coordinates(p, q);
}

/// The key under which the chunk at `c` is kept.
fn chunk_key(c: ChunkPos) -> (key: u64)
    ensures
        key == spec_chunk_key(c),
{
    let (cx, cz) = c.to_xz();
    let hi: u64 = (cx as i64 + 0x8000_0000) as u64;
    let lo: u64 = (cz as i64 + 0x8000_0000) as u64;
    hi * 0x1_0000_0000 + lo
}

/// A block coordinate within its chunk.
fn local(v: i32) -> (l: usize)
    requires
        -0x200_0000 <= v < 0x200_0000,
    ensures
        l == v as int % 16,
{
    (((v + 0x200_0000) as u32) % 16) as usize
}

/// A world in memory. States from 1 to 255 are kept in chunks, a byte for
/// each block, at the positions that a chunk covers; every other state is
/// kept in a map from positions to states. A chunk comes into being when
/// the first state is written into it, and a position of a chunk that does
/// not exist reads as state 0.
pub struct BufWorld {
    chunks: HashMap<u64, Chunk>,
    overflow: HashMap<u64, u16>,
    buffers: HashMap<u64, Vec<u8>>,
    registry: HashSystem,
}

/// The 65536 bytes of a chunk.
pub closed spec fn cells_of(chunk: Chunk) -> Seq<u8> {
    Seq::new(65536, |i: int| chunk@[i])
}

impl View for BufWorld {
    type V = WorldModel;

    closed spec fn view(&self) -> WorldModel {
        WorldModel {
            chunks: Map::new(
                |c: ChunkPos| self.chunks@.contains_key(spec_chunk_key(c)),
                |c: ChunkPos| cells_of(self.chunks@[spec_chunk_key(c)]),
            ),
            overflow: Map::new(
                |p: BlockPos| self.overflow@.contains_key(p.repr()),
                |p: BlockPos| self.overflow@[p.repr()],
            ),
            buffers: Map::new(
                |p: BlockPos| self.buffers@.contains_key(p.repr()),
                |p: BlockPos| self.buffers@[p.repr()]@,
            ),
            registry: self.registry@,
        }
    }
}

impl BufWorld {
    /// The world's registry.
    pub closed spec fn spec_registry(&self) -> HashSystem {
        self.registry
    }

    /// An empty world whose states are named by `registry`.
    pub fn new(registry: HashSystem) -> (world: BufWorld)
        ensures
            world@ == WorldModel::empty(registry@),
            world.spec_registry() == registry,
    {
        let world = BufWorld {
            chunks: HashMap::new(),
            overflow: HashMap::new(),
            buffers: HashMap::new(),
            registry,
        };
        assert(world@.chunks =~= Map::<ChunkPos, Seq<u8>>::empty());
        assert(world@.overflow =~= Map::<BlockPos, u16>::empty());
        assert(world@.buffers =~= Map::<BlockPos, Seq<u8>>::empty());
        world
    }

    /// The world's registry.
    pub fn registry(&self) -> (registry: &HashSystem)
        ensures
            *registry == self.spec_registry(),
            registry@ == self@.registry,
    {
        &self.registry
    }

    /// Every world is well-formed.
    pub proof fn lemma_wf(&self)
        ensures
            self@.wf(),
    {
        assert forall|c: ChunkPos| self@.chunks.contains_key(c) implies (
        #[trigger] self@.chunks[c]).len() == 65536 by {}
    }

    /// The state at `pos`: the sparse map is asked first, then the chunk;
    /// where neither knows the position, there is no block.
    pub fn read_block_state(&self, pos: BlockPos) -> (state: Meta)
        ensures
            state@ == self@.state_at(pos),
    {
        let key: u64 = pos.to_u64_repr();
        match self.overflow.get(&key) {
            Some(state) => {
                return Meta::new(*state);
            },
            None => {},
        }
        let (x, y, z) = pos.to_xyz();
        if 0 <= y && y < 256 {
            let ckey: u64 = chunk_key(pos.to_chunk_pos());
            match self.chunks.get(&ckey) {
                Some(chunk) => Meta::new(chunk.get(local(x), y as usize, local(z)) as u16),
                None => Meta::new(0),
            }
        } else {
            Meta::new(0)
        }
    }

    /// Whether there is a block at `pos`: whether the state there is not 0.
    pub fn contains_block(&self, pos: BlockPos) -> (b: bool)
        ensures
            b == self@.contains_block(pos),
            b == (self@.state_at(pos) != 0),
    {
        self.read_block_state(pos).to_u16() != 0
    }

    /// Whether the chunk at `c` exists.
    pub fn contains_chunk(&self, c: ChunkPos) -> (b: bool)
        ensures
            b == self@.chunks.contains_key(c),
    {
        let ckey: u64 = chunk_key(c);
        self.chunks.contains_key(&ckey)
    }

    /// Whether there is a buffer at `pos`.
    pub fn has_block_buffer(&self, pos: BlockPos) -> (b: bool)
        ensures
            b == self@.buffers.contains_key(pos),
    {
        let key: u64 = pos.to_u64_repr();
        self.buffers.contains_key(&key)
    }

    /// The buffer at `pos`. To ask for a buffer where there is none is a
    /// mistake of the caller.
    pub fn block_buffer(&self, pos: BlockPos) -> (buffer: &Vec<u8>)
        requires
            self@.buffers.contains_key(pos),
        ensures
            buffer@ == self@.buffers[pos],
    {
        let key: u64 = pos.to_u64_repr();
        match self.buffers.get(&key) {
            Some(buffer) => buffer,
            None => vstd::pervasive::unreached(),
        }
    }

    /// The buffer at `pos`, to be changed in place. To ask for a buffer
    /// where there is none is a mistake of the caller.
    pub fn block_buffer_mut(&mut self, pos: BlockPos) -> (buffer: &mut Vec<u8>)
        requires
            old(self)@.buffers.contains_key(pos),
        ensures
            buffer@ == old(self)@.buffers[pos],
            final(self)@ == old(self)@.with_buffer(pos, final(buffer)@),
            final(self).spec_registry() == old(self).spec_registry(),
    {
        let key: u64 = pos.to_u64_repr();
        let ghost before = *self;
        proof {
            assert forall|after: BufWorld, content: Vec<u8>|
                #![trigger after@, content@]
                before.buffer_replaced(after, pos, content) implies after@ == before@.with_buffer(
                pos,
                content@,
            ) && after.spec_registry() == before.spec_registry() by {
                before.lemma_buffer_replaced(after, pos, content);
            }
        }
        match self.buffers.entry(key) {
            Entry::Occupied(entry) => entry.into_mut(),
            Entry::Vacant(_) => vstd::pervasive::unreached(),
        }
    }

    /// Whether `after` is this world with `content` as the buffer at `pos`.
    spec fn buffer_replaced(&self, after: BufWorld, pos: BlockPos, content: Vec<u8>) -> bool {
        &&& after.chunks == self.chunks
        &&& after.overflow == self.overflow
        &&& after.registry == self.registry
        &&& after.buffers@ == self.buffers@.insert(pos.repr(), content)
    }

    /// Replacing a buffer changes the content of that buffer and nothing
    /// else.
    proof fn lemma_buffer_replaced(&self, after: BufWorld, pos: BlockPos, content: Vec<u8>)
        requires
            self.buffer_replaced(after, pos, content),
        ensures
            after@ == self@.with_buffer(pos, content@),
            after.spec_registry() == self.spec_registry(),
    {
        assert(after@.chunks =~= self@.chunks);
        assert(after@.overflow =~= self@.overflow);
        assert(after@.buffers =~= self@.buffers.insert(pos, content@)) by {
            assert forall|p: BlockPos| #[trigger] p.repr() == pos.repr() implies p == pos by {
                BlockPos::lemma_eq_by_repr(p, pos);
            }
        }
    }

    /// Sets the state at `pos` in the chunks and the sparse map.
    fn store_state(&mut self, pos: BlockPos, state: u16)
        ensures
            final(self)@.chunks == old(self)@.write(pos, state).chunks,
            final(self)@.overflow == old(self)@.write(pos, state).overflow,
            final(self).buffers == old(self).buffers,
            final(self).registry == old(self).registry,
    {
        let key: u64 = pos.to_u64_repr();
        let (x, y, z) = pos.to_xyz();
        let in_height: bool = 0 <= y && y < 256;
        let ghost before = *self;
        proof {
            pos.lemma_chunk();
            assert forall|p: BlockPos| #[trigger] p.repr() == key implies p == pos by {
                BlockPos::lemma_eq_by_repr(p, pos);
            }
            assert forall|c: ChunkPos| #[trigger]
                spec_chunk_key(c) == spec_chunk_key(pos.chunk()) implies c == pos.chunk() by {
                lemma_chunk_key_injective(c, pos.chunk());
            }
        }
        if state >= 1 && state <= 255 && in_height {
            // A dense state lives in the chunk alone: an entry that an
            // earlier state left in the sparse map would hide it.
            self.overflow.remove(&key);
            let ckey: u64 = chunk_key(pos.to_chunk_pos());
            let mut chunk = match self.chunks.remove(&ckey) {
                Some(chunk) => chunk,
                None => Chunk::new(),
            };
            let ghost old_cells = cells_of(chunk);
            chunk.set(local(x), y as usize, local(z), state as u8);
            assert(cells_of(chunk) =~= old_cells.update(cell_of(pos), state as u8));
            assert(!before.chunks@.contains_key(ckey) ==> old_cells =~= no_blocks());
            self.chunks.insert(ckey, chunk);
            assert(self@.chunks =~= before@.write(pos, state).chunks);
        } else if state == 0 {
            // The block is taken away from both places: the byte of an
            // earlier dense state must not show again once the entry of
            // the sparse map is gone.
            self.overflow.remove(&key);
            if in_height {
                let ckey: u64 = chunk_key(pos.to_chunk_pos());
                match self.chunks.remove(&ckey) {
                    Some(chunk) => {
                        let mut chunk = chunk;
                        let ghost old_cells = cells_of(chunk);
                        chunk.set(local(x), y as usize, local(z), 0);
                        assert(cells_of(chunk) =~= old_cells.update(cell_of(pos), 0));
                        self.chunks.insert(ckey, chunk);
                    },
                    None => {},
                }
            }
            assert(self@.chunks =~= before@.write(pos, state).chunks);
        } else {
            // The entry of the sparse map is asked first, so that a byte
            // that an earlier dense state left in the chunk stays hidden.
            self.overflow.insert(key, state);
            assert(self@.chunks =~= before@.write(pos, state).chunks);
        }
        assert(self@.overflow =~= before@.write(pos, state).overflow);
    }

    /// Writes `new_state` at `pos`.
    ///
    /// State 0 takes the block away, from the sparse map and from the
    /// chunk. A state from 1 to 255 is written into the chunk of the
    /// position, which is made, without blocks, if it does not exist yet;
    /// at a position above or below the chunks such a state goes to the
    /// sparse map. Every larger state goes to the sparse map, and no chunk
    /// is made for it. Whatever was at the position before is gone: the
    /// position then reads as `new_state`.
    ///
    /// If the registry says that `new_state` needs a buffer, the position
    /// gets a fresh, empty one; if not, it loses the buffer it had.
    pub fn write_block_state(&mut self, pos: BlockPos, new_state: Meta)
        ensures
            final(self)@ == old(self)@.write(pos, new_state@),
            final(self).spec_registry() == old(self).spec_registry(),
            final(self)@.state_at(pos) == new_state@,
            final(self)@.buffer_at(pos) == if old(self)@.registry.needs_buffer(new_state@) {
                Some(Seq::<u8>::empty())
            } else {
                None
            },
    {
        let state: u16 = new_state.to_u16();
        let key: u64 = pos.to_u64_repr();
        proof {
            self.lemma_wf();
            self@.lemma_write_then_read(pos, state);
        }
        self.store_state(pos, state);
        match self.registry.buffer_template(new_state) {
            Some(buffer) => {
                self.buffers.insert(key, buffer);
            },
            None => {
                self.buffers.remove(&key);
            },
        }
        proof {
            assert forall|p: BlockPos| #[trigger] p.repr() == key implies p == pos by {
                BlockPos::lemma_eq_by_repr(p, pos);
            }
            assert(self@.buffers =~= old(self)@.write(pos, state).buffers);
        }
    }

    /// Makes sure that what was written has reached its destination. A
    /// world in memory has nowhere to send it: nothing changes.
    pub fn flush(&mut self)
        ensures
            *final(self) == *old(self),
    {
    }
}

impl ReadExact for BufWorld {
    open spec fn read_exact_outcome(&self, pos: BlockPos, r: Result<Meta>) -> bool {
        r matches Ok(state) && state@ == self@.state_at(pos)
    }

    open spec fn contain_exact_outcome(&self, pos: BlockPos, r: Result<bool>) -> bool {
        r == Ok::<bool, Error>(self@.contains_block(pos))
    }

    fn read_block_exact(&self, pos: BlockPos) -> (r: Result<Meta>) {
        Ok(self.read_block_state(pos))
    }

    fn contain_block_exact(&self, pos: BlockPos) -> (r: Result<bool>) {
        Ok(self.contains_block(pos))
    }
}

impl WriteExact for BufWorld {
    open spec fn write_exact_outcome(
        &self,
        pos: BlockPos,
        meta: Meta,
        after: &Self,
        r: Result<()>,
    ) -> bool {
        &&& r is Ok
        &&& after@ == self@.write(pos, meta@)
        &&& after.spec_registry() == self.spec_registry()
    }

    open spec fn flush_exact_outcome(&self, after: &Self, r: Result<()>) -> bool {
        r is Ok && *after == *self
    }

    fn write_block_exact(&mut self, pos: BlockPos, meta: Meta) -> (r: Result<()>) {
        self.write_block_state(pos, meta);
        Ok(())
    }

    fn flush_block(&mut self) -> (r: Result<()>) {
        self.flush();
        Ok(())
    }
}

impl IdOperate for BufWorld {
    type System = HashSystem;

    open spec fn id_system_outcome(&self, sys: &HashSystem) -> bool {
        *sys == self.spec_registry()
    }

    fn block_id_system(&self) -> (sys: &HashSystem) {
        self.registry()
    }
}

} // verus!
