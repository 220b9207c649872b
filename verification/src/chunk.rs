//! Chunks: dense columns of the world, 16 blocks wide along `x` and `z`
//! and 256 blocks high, with one byte for each block.

use vstd::prelude::*;
use crate::block::Result;
pub use crate::pos::ChunkPos as Pos;

verus! {

/// Blocks along `x` and along `z`.
pub const CHUNK_WIDTH: usize = 16;

/// Blocks along `y`.
pub const CHUNK_HEIGHT: usize = 256;

/// Blocks in a chunk.
pub const CHUNK_CELLS: usize = 65536;

/// Where the byte of the block at `(x, y, z)` within a chunk stands:
/// `x` runs slowest and `z` fastest.
pub open spec fn cell_index(x: int, y: int, z: int) -> int {
    (x * 256 + y) * 16 + z
}

/// Whether `(x, y, z)` names a block within a chunk.
pub open spec fn in_chunk(x: int, y: int, z: int) -> bool {
    0 <= x < 16 && 0 <= y < 256 && 0 <= z < 16
}

/// Different blocks within a chunk have different bytes.
pub proof fn lemma_cell_index_injective(x: int, y: int, z: int, x2: int, y2: int, z2: int)
    requires
        in_chunk(x, y, z),
        in_chunk(x2, y2, z2),
        cell_index(x, y, z) == cell_index(x2, y2, z2),
    ensures
        0 <= cell_index(x, y, z) < 65536,
        x == x2,
        y == y2,
        z == z2,
{
}

/// The states of the blocks of one chunk, a byte each; 0 means no block.
#[derive(Eq, PartialEq, Hash, Debug)]
pub struct Chunk {
    inner: Vec<u8>,
}

impl View for Chunk {
    type V = Seq<u8>;

    closed spec fn view(&self) -> Seq<u8> {
        self.inner@
    }
}

impl Chunk {
    #[verifier::type_invariant]
    spec fn well_formed(&self) -> bool {
        self.inner@.len() == 65536
    }

    /// A chunk without blocks.
    pub fn new() -> (c: Chunk)
        ensures
            c@ == Seq::new(65536, |i: int| 0u8),
    {
        let inner: Vec<u8> = vec![0u8; 65536];
        assert(inner@ =~= Seq::new(65536, |i: int| 0u8));
        Chunk { inner }
    }

    /// Every chunk has 65536 bytes.
    pub fn len(&self) -> (n: usize)
        ensures
            n == 65536,
            self@.len() == 65536,
    {
        proof {
            use_type_invariant(self);
        }
        self.inner.len()
    }

    /// The byte of the block at `(x, y, z)`.
    pub fn get(&self, x: usize, y: usize, z: usize) -> (value: u8)
        requires
            in_chunk(x as int, y as int, z as int),
        ensures
            self@.len() == 65536,
            value == self@[cell_index(x as int, y as int, z as int)],
    {
        proof {
            use_type_invariant(self);
        }
        self.inner[(x * 256 + y) * 16 + z]
    }

    /// Sets the byte of the block at `(x, y, z)`.
    pub fn set(&mut self, x: usize, y: usize, z: usize, value: u8)
        requires
            in_chunk(x as int, y as int, z as int),
        ensures
            old(self)@.len() == 65536,
            final(self)@ == old(self)@.update(cell_index(x as int, y as int, z as int), value),
    {
        proof {
            use_type_invariant(&*self);
        }
        self.inner[(x * 256 + y) * 16 + z] = value;
    }
}

impl Clone for Chunk {
    /// A copy with the same bytes.
    fn clone(&self) -> (c: Chunk)
        ensures
            c@ == self@,
    {
        proof {
            use_type_invariant(self);
        }
        let inner: Vec<u8> = self.inner.clone();
        assert(inner@ =~= self.inner@);
        Chunk { inner }
    }
}

/// Reading whole chunks at a given position; for the storage itself.
pub trait ReadExact {
    /// Whether reading the chunk at `pos` into a buffer that held `before`
    /// may leave `after` in it and give `r`.
    open spec fn read_chunk_outcome(
        &self,
        pos: Pos,
        before: &Chunk,
        after: &Chunk,
        r: Result<()>,
    ) -> bool {
        true
    }

    /// Whether `r` is a result that asking for the chunk at `pos` may give.
    open spec fn contains_chunk_outcome(&self, pos: Pos, r: Result<bool>) -> bool {
        true
    }

    /// Reads the chunk at `pos` into `buf`.
    fn read_chunk_exact(&self, pos: Pos, buf: &mut Chunk) -> (r: Result<()>)
        ensures
            self.read_chunk_outcome(pos, old(buf), final(buf), r),
    ;

    /// Whether there is a chunk at `pos`.
    fn contains_chunk(&self, pos: Pos) -> (r: Result<bool>)
        ensures
            self.contains_chunk_outcome(pos, r),
    ;
}

/// Writing whole chunks at a given position; for the storage itself.
pub trait WriteExact {
    /// Whether writing `chunk` at `pos` may turn `self` into `after` and
    /// give `r`.
    open spec fn write_chunk_outcome(
        &self,
        pos: Pos,
        chunk: &Chunk,
        after: &Self,
        r: Result<()>,
    ) -> bool {
        true
    }

    /// Writes a whole chunk at `pos`.
    fn write_chunk_exact(&mut self, pos: Pos, chunk: &Chunk) -> (r: Result<()>)
        ensures
            old(self).write_chunk_outcome(pos, chunk, final(self), r),
    ;
}

/// A current chunk position on top of a chunk storage `I`.
pub struct Cursor<I> {
    inner: I,
    pos: Pos,
}

impl<I> Cursor<I> {
    /// The storage under the cursor.
    pub closed spec fn spec_inner(&self) -> I {
        self.inner
    }

    /// The current position.
    pub closed spec fn spec_position(&self) -> Pos {
        self.pos
    }

    /// A cursor over `inner`, at the chunk at the origin.
    pub fn new(inner: I) -> (c: Cursor<I>)
        ensures
            c.spec_inner() == inner,
            c.spec_position().x() == 0,
            c.spec_position().z() == 0,
    {
        Cursor { inner, pos: Pos::from_xz(0, 0) }
    }

    /// Gives the storage back.
    pub fn into_inner(self) -> (inner: I)
        ensures
            inner == self.spec_inner(),
    {
        self.inner
    }

    /// The current position.
    pub fn position(&self) -> (pos: Pos)
        ensures
            pos == self.spec_position(),
    {
        self.pos
    }

    /// Moves to `pos`, whatever position it is.
    pub fn set_position(&mut self, pos: Pos)
        ensures
            final(self).spec_position() == pos,
            final(self).spec_inner() == old(self).spec_inner(),
    {
        self.pos = pos;
    }
}

/// Reading the chunk at a current position.
pub trait Read {
    /// Whether reading into a buffer that held `before` may leave `after`
    /// in it and give `r`.
    open spec fn read_outcome(&self, before: &Chunk, after: &Chunk, r: Result<()>) -> bool {
        true
    }

    /// Reads the chunk at the current position into `buf`.
    fn read_chunk(&self, buf: &mut Chunk) -> (r: Result<()>)
        ensures
            self.read_outcome(old(buf), final(buf), r),
    ;
}

/// Writing the chunk at a current position.
pub trait Write {
    /// Whether writing `new_chunk` may turn `self` into `after` and give `r`.
    open spec fn write_outcome(&self, new_chunk: &Chunk, after: &Self, r: Result<()>) -> bool {
        true
    }

    /// Writes `new_chunk` at the current position.
    fn write_chunk(&mut self, new_chunk: &Chunk) -> (r: Result<()>)
        ensures
            old(self).write_outcome(new_chunk, final(self), r),
    ;
}

impl<I: ReadExact> Read for Cursor<I> {
    open spec fn read_outcome(&self, before: &Chunk, after: &Chunk, r: Result<()>) -> bool {
        self.spec_inner().read_chunk_outcome(self.spec_position(), before, after, r)
    }

    fn read_chunk(&self, buf: &mut Chunk) -> (r: Result<()>) {
        self.inner.read_chunk_exact(self.pos, buf)
    }
}

impl<I: WriteExact> Write for Cursor<I> {
    open spec fn write_outcome(&self, new_chunk: &Chunk, after: &Self, r: Result<()>) -> bool {
        &&& after.spec_position() == self.spec_position()
        &&& self.spec_inner().write_chunk_outcome(
            self.spec_position(),
            new_chunk,
            &after.spec_inner(),
            r,
        )
    }

    fn write_chunk(&mut self, new_chunk: &Chunk) -> (r: Result<()>) {
        self.inner.write_chunk_exact(self.pos, new_chunk)
    }
}

} // verus!
