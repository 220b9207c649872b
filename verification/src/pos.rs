//! Packed block positions and chunk coordinates.
//!
//! A block position is three signed coordinates packed into one 64-bit
//! integer: `x` in the top 26 bits, `y` in the next 12 and `z` in the low 26,
//! each in two's complement within its field.

use vstd::prelude::*;

verus! {

/// Number of values an `x` or `z` field can hold (26 bits).
pub const XZ_SPAN: u64 = 0x400_0000;

/// Number of values a `y` field can hold (12 bits).
pub const Y_SPAN: u64 = 0x1000;

/// Weight of the `y` field inside the packed integer.
pub const Y_UNIT: u64 = 0x400_0000;

/// Weight of the `x` field inside the packed integer.
pub const X_UNIT: u64 = 0x40_0000_0000;

/// Side length of a chunk along `x` and `z`.
pub const CHUNK_SIDE: i32 = 16;

/// The value a coordinate takes on inside a field of `span` values:
/// its residue, which for a negative coordinate is its two's complement.
pub open spec fn wrap(v: int, span: int) -> int {
    v % span
}

/// The signed coordinate that a field of `span` values stands for.
pub open spec fn sign_extend(field: int, span: int) -> int {
    if field >= span / 2 {
        field - span
    } else {
        field
    }
}

/// Whether `(x, y, z)` can be packed without loss.
pub open spec fn in_field_ranges(x: int, y: int, z: int) -> bool {
    &&& -0x200_0000 <= x < 0x200_0000
    &&& -0x800 <= y < 0x800
    &&& -0x200_0000 <= z < 0x200_0000
}

/// The packed integer for `(x, y, z)`. Coordinates outside their field's
/// range wrap around.
pub open spec fn spec_encode(x: int, y: int, z: int) -> int {
    wrap(x, 0x400_0000) * 0x40_0000_0000 + wrap(y, 0x1000) * 0x400_0000 + wrap(z, 0x400_0000)
}

/// The coordinates that a packed integer stands for.
pub open spec fn spec_decode(repr: int) -> (int, int, int) {
    (
        sign_extend(repr / 0x40_0000_0000, 0x400_0000),
        sign_extend((repr / 0x400_0000) % 0x1000, 0x1000),
        sign_extend(repr % 0x400_0000, 0x400_0000),
    )
}

/// Packing coordinates that lie within the field ranges and unpacking the
/// result gives the coordinates back.
pub proof fn lemma_decode_encode(x: int, y: int, z: int)
    requires
        in_field_ranges(x, y, z),
    ensures
        0 <= spec_encode(x, y, z) <= u64::MAX,
        spec_decode(spec_encode(x, y, z)) == (x, y, z),
{
    let fx = wrap(x, 0x400_0000);
    let fy = wrap(y, 0x1000);
    let fz = wrap(z, 0x400_0000);
    let repr = spec_encode(x, y, z);
    assert(repr == (fx * 0x1000 + fy) * 0x400_0000 + fz);
    assert(repr % 0x400_0000 == fz);
    assert(repr / 0x400_0000 == fx * 0x1000 + fy);
    assert((repr / 0x400_0000) % 0x1000 == fy);
    assert(repr / 0x40_0000_0000 == fx);
}

/// Unpacking any 64-bit integer and packing the coordinates again gives the
/// integer back: every 64-bit integer is the packed form of exactly the
/// coordinates it decodes to.
pub proof fn lemma_encode_decode(repr: u64)
    ensures
        in_field_ranges(
            spec_decode(repr as int).0,
            spec_decode(repr as int).1,
            spec_decode(repr as int).2,
        ),
        spec_encode(
            spec_decode(repr as int).0,
            spec_decode(repr as int).1,
            spec_decode(repr as int).2,
        ) == repr,
{
    let r = repr as int;
    let fx = r / 0x40_0000_0000;
    let fy = (r / 0x400_0000) % 0x1000;
    let fz = r % 0x400_0000;
    assert(r / 0x400_0000 == fx * 0x1000 + fy);
    assert(r == (fx * 0x1000 + fy) * 0x400_0000 + fz);
    assert(wrap(sign_extend(fx, 0x400_0000), 0x400_0000) == fx);
    assert(wrap(sign_extend(fy, 0x1000), 0x1000) == fy);
    assert(wrap(sign_extend(fz, 0x400_0000), 0x400_0000) == fz);
}

/// The position of a block: three coordinates packed into 64 bits.
#[derive(Copy, Clone, Eq, PartialEq, Hash, Debug, Structural)]
pub struct BlockPos(u64);

impl BlockPos {
    /// The packed integer.
    pub closed spec fn repr(self) -> u64 {
        self.0
    }

    /// The `x` coordinate.
    pub open spec fn x(self) -> int {
        spec_decode(self.repr() as int).0
    }

    /// The `y` coordinate.
    pub open spec fn y(self) -> int {
        spec_decode(self.repr() as int).1
    }

    /// The `z` coordinate.
    pub open spec fn z(self) -> int {
        spec_decode(self.repr() as int).2
    }

    /// The position whose packed integer is `inner`.
    pub fn from_u64_repr(inner: u64) -> (p: BlockPos)
        ensures
            p.repr() == inner,
    {
        BlockPos(inner)
    }

    /// Packs `(x, y, z)`. No coordinate is rejected: one that lies outside
    /// its field's range wraps around, so that the position decodes to other
    /// coordinates than the ones given.
    pub fn from_xyz(x: i32, y: i32, z: i32) -> (p: BlockPos)
        ensures
            p.repr() == spec_encode(x as int, y as int, z as int),
            in_field_ranges(x as int, y as int, z as int) ==> p.x() == x && p.y() == y && p.z()
                == z,
    {
        BlockPos::from_wide_xyz(x as i64, y as i64, z as i64)
    }

    /// Packs `(x, y, z)` as `from_xyz` does, for coordinates that need not
    /// fit 32 bits, such as the sums of coordinates and offsets.
    pub fn from_wide_xyz(x: i64, y: i64, z: i64) -> (p: BlockPos)
        requires
            -0x2_0000_0000 <= x < 0x2_0000_0000,
            -0x2_0000_0000 <= y < 0x2_0000_0000,
            -0x2_0000_0000 <= z < 0x2_0000_0000,
        ensures
            p.repr() == spec_encode(x as int, y as int, z as int),
            in_field_ranges(x as int, y as int, z as int) ==> p.x() == x && p.y() == y && p.z()
                == z,
    {
        // Shifting by 2^33, a multiple of every field's span, makes the
        // coordinate non-negative without changing its residue.
        let ux: u64 = (x + 0x2_0000_0000) as u64;
        let uy: u64 = (y + 0x2_0000_0000) as u64;
        let uz: u64 = (z + 0x2_0000_0000) as u64;
        let fx: u64 = ux % XZ_SPAN;
        let fy: u64 = uy % Y_SPAN;
        let fz: u64 = uz % XZ_SPAN;
        assert(fx == wrap(x as int, 0x400_0000));
        assert(fy == wrap(y as int, 0x1000));
        assert(fz == wrap(z as int, 0x400_0000));
        proof {
            if in_field_ranges(x as int, y as int, z as int) {
                lemma_decode_encode(x as int, y as int, z as int);
            }
        }
        BlockPos(fx * X_UNIT + fy * Y_UNIT + fz)
    }

    /// The packed integer.
    pub fn to_u64_repr(&self) -> (r: u64)
        ensures
            r == self.repr(),
    {
        self.0
    }

    /// Unpacks the three coordinates, extending the sign of each field.
    pub fn to_xyz(&self) -> (r: (i32, i32, i32))
        ensures
            r.0 == self.x(),
            r.1 == self.y(),
            r.2 == self.z(),
            in_field_ranges(r.0 as int, r.1 as int, r.2 as int),
    {
        let fx: i64 = (self.0 / X_UNIT) as i64;
        let fy: i64 = ((self.0 / Y_UNIT) % Y_SPAN) as i64;
        let fz: i64 = (self.0 % XZ_SPAN) as i64;
        let x: i64 = if fx >= 0x200_0000 { fx - 0x400_0000 } else { fx };
        let y: i64 = if fy >= 0x800 { fy - 0x1000 } else { fy };
        let z: i64 = if fz >= 0x200_0000 { fz - 0x400_0000 } else { fz };
        (x as i32, y as i32, z as i32)
    }

    /// The chunk that holds this position: each of `x` and `z` divided by
    /// the chunk's side, rounded towards negative infinity.
    pub closed spec fn chunk(self) -> ChunkPos {
        ChunkPos((self.x() / 16) as i32, (self.z() / 16) as i32)
    }

    /// The coordinates of `chunk`.
    pub proof fn lemma_chunk(self)
        ensures
            self.chunk().x() == self.x() / 16,
            self.chunk().z() == self.z() / 16,
    {
        lemma_encode_decode(self.repr());
    }

    /// A position is determined by its packed integer.
    pub proof fn lemma_eq_by_repr(a: BlockPos, b: BlockPos)
        requires
            a.repr() == b.repr(),
        ensures
            a == b,
    {
    }

    /// A position is determined by its coordinates.
    pub proof fn lemma_eq_by_coordinates(a: BlockPos, b: BlockPos)
        requires
            a.x() == b.x(),
            a.y() == b.y(),
            a.z() == b.z(),
        ensures
            a == b,
    {
        lemma_encode_decode(a.repr());
        lemma_encode_decode(b.repr());
    }

    /// The chunk that holds this position: each of `x` and `z` divided by
    /// the chunk's side, rounded towards negative infinity.
    pub fn to_chunk_pos(&self) -> (c: ChunkPos)
        ensures
            c == self.chunk(),
            c.x() == self.x() / 16,
            c.z() == self.z() / 16,
    {
        let (x, _, z) = self.to_xyz();
        ChunkPos::from_xz(floor_div_side(x), floor_div_side(z))
    }
}

/// `v` divided by the chunk's side, rounded towards negative infinity.
fn floor_div_side(v: i32) -> (q: i32)
    requires
        -0x200_0000 <= v < 0x200_0000,
    ensures
        q == v as int / 16,
{
    let shifted: u32 = (v + 0x200_0000) as u32;
    let q: i32 = (shifted / 16) as i32;
    q - 0x20_0000
}

impl Default for BlockPos {
    /// The position at the origin.
    fn default() -> (p: BlockPos)
        ensures
            p.repr() == 0,
    {
        BlockPos(0)
    }
}

impl From<(i32, i32, i32)> for BlockPos {
    fn from(src: (i32, i32, i32)) -> (p: BlockPos) {
        BlockPos::from_xyz(src.0, src.1, src.2)
    }
}

impl vstd::std_specs::convert::FromSpecImpl<(i32, i32, i32)> for BlockPos {
    open spec fn obeys_from_spec() -> bool {
        true
    }

    open spec fn from_spec(src: (i32, i32, i32)) -> BlockPos {
        BlockPos::spec_from_xyz(src.0 as int, src.1 as int, src.2 as int)
    }
}

impl BlockPos {
    /// The position that `from_xyz` gives for `(x, y, z)`.
    pub closed spec fn spec_from_xyz(x: int, y: int, z: int) -> BlockPos {
        BlockPos(spec_encode(x, y, z) as u64)
    }

    /// `spec_from_xyz` has the packed integer that `spec_encode` gives.
    pub proof fn lemma_spec_from_xyz(x: int, y: int, z: int)
        ensures
            Self::spec_from_xyz(x, y, z).repr() == spec_encode(x, y, z),
    {
        let fx = wrap(x, 0x400_0000);
        let fy = wrap(y, 0x1000);
        let fz = wrap(z, 0x400_0000);
        assert(0 <= fx * 0x40_0000_0000 + fy * 0x400_0000 + fz <= u64::MAX);
    }
}

/// The coordinates of a chunk: block coordinates divided by the chunk's side.
#[derive(Copy, Clone, Eq, PartialEq, Hash, Debug, Structural)]
pub struct ChunkPos(i32, i32);

impl ChunkPos {
    /// The chunk's `x` coordinate.
    pub closed spec fn x(self) -> i32 {
        self.0
    }

    /// The chunk's `z` coordinate.
    pub closed spec fn z(self) -> i32 {
        self.1
    }

    /// The chunk at `(chunk_x, chunk_z)`.
    pub fn from_xz(chunk_x: i32, chunk_z: i32) -> (c: ChunkPos)
        ensures
            c.x() == chunk_x,
            c.z() == chunk_z,
    {
        ChunkPos(chunk_x, chunk_z)
    }

    /// The chunk's two coordinates.
    pub fn to_xz(&self) -> (r: (i32, i32))
        ensures
            r.0 == self.x(),
            r.1 == self.z(),
    {
        (self.0, self.1)
    }

    /// Two chunk positions with the same coordinates are the same.
    pub proof fn lemma_eq_by_coordinates(a: ChunkPos, b: ChunkPos)
        requires
            a.x() == b.x(),
            a.z() == b.z(),
        ensures
            a == b,
    {
    }
}

impl Default for ChunkPos {
    /// The chunk at the origin.
    fn default() -> (c: ChunkPos)
        ensures
            c.x() == 0,
            c.z() == 0,
    {
        ChunkPos(0, 0)
    }
}

} // verus!
