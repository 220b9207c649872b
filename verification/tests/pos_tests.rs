use mc_types::pos::{BlockPos, ChunkPos};

#[test]
fn block_pos() {
    let packed = BlockPos::from_xyz(10, 20, 30);
    let converted = BlockPos::from((10, 20, 30));
    let mirrored = BlockPos::from((-10, 20, -30));
    assert_eq!(packed, converted);
    assert_ne!(converted, mirrored);
    assert_eq!(packed.to_u64_repr(), 2750121246750);
    let unpacked = BlockPos::from_u64_repr(2750121246750);
    assert_eq!(converted, unpacked);
}

#[test]
fn chunk_pos() {
    let here = ChunkPos::from_xz(10, -10);
    let same = ChunkPos::from_xz(10, -10);
    let mirrored = ChunkPos::from_xz(-10, 10);
    assert_eq!(here, same);
    assert_ne!(same, mirrored);
}

#[test]
fn coordinates_come_back_from_the_packed_form() {
    assert_eq!(BlockPos::from_xyz(123, 45, -6789).to_xyz(), (123, 45, -6789));
    assert_eq!(BlockPos::from_xyz(0, 0, 0).to_xyz(), (0, 0, 0));
    assert_eq!(BlockPos::from_xyz(-1, -1, -1).to_xyz(), (-1, -1, -1));
    assert_eq!(BlockPos::from_xyz(-1, -1, -1).to_u64_repr(), u64::MAX);
}

#[test]
fn the_ends_of_the_field_ranges_come_back() {
    let low = BlockPos::from_xyz(-33554432, -2048, -33554432);
    assert_eq!(low.to_xyz(), (-33554432, -2048, -33554432));
    let high = BlockPos::from_xyz(33554431, 2047, 33554431);
    assert_eq!(high.to_xyz(), (33554431, 2047, 33554431));
    assert_eq!(high.to_u64_repr(), 0x7FFF_FFDF_FDFF_FFFF);
    assert_eq!(low.to_u64_repr(), 0x8000_0020_0200_0000);
}

#[test]
fn coordinates_outside_the_field_ranges_wrap() {
    assert_eq!(BlockPos::from_xyz(33554432, 2048, 33554432).to_xyz(), (-33554432, -2048, -33554432));
    assert_eq!(BlockPos::from_xyz(-33554433, -2049, -33554433).to_xyz(), (33554431, 2047, 33554431));
    assert_eq!(BlockPos::from_xyz(67108864, 4096, 67108864), BlockPos::from_xyz(0, 0, 0));
    assert_eq!(BlockPos::from_xyz(i32::MAX, i32::MAX, i32::MAX).to_xyz(), (-1, -1, -1));
    assert_eq!(BlockPos::from_xyz(i32::MIN, i32::MIN, i32::MIN).to_xyz(), (0, 0, 0));
}

#[test]
fn the_fields_stand_where_the_layout_says() {
    assert_eq!(BlockPos::from_xyz(1, 0, 0).to_u64_repr(), 1 << 38);
    assert_eq!(BlockPos::from_xyz(0, 1, 0).to_u64_repr(), 1 << 26);
    assert_eq!(BlockPos::from_xyz(0, 0, 1).to_u64_repr(), 1);
    assert_eq!(BlockPos::from_xyz(0, -1, 0).to_u64_repr(), 0xFFF << 26);
    assert_eq!(BlockPos::from_wide_xyz(1, 0, 0), BlockPos::from_xyz(1, 0, 0));
    assert_eq!(BlockPos::from_wide_xyz(-8589934592, 0, 8589934591).to_xyz(), (0, 0, -1));
}

#[test]
fn every_packed_integer_is_a_position() {
    for repr in [0u64, 1, 0x1234_5678_9ABC_DEF0, u64::MAX, 1 << 63, 0x0000_0020_0000_0000] {
        let pos = BlockPos::from_u64_repr(repr);
        let (x, y, z) = pos.to_xyz();
        assert_eq!(BlockPos::from_xyz(x, y, z).to_u64_repr(), repr);
    }
}

#[test]
fn chunks_round_towards_negative_infinity() {
    assert_eq!(BlockPos::from_xyz(0, 0, 0).to_chunk_pos().to_xz(), (0, 0));
    assert_eq!(BlockPos::from_xyz(15, 0, 16).to_chunk_pos().to_xz(), (0, 1));
    assert_eq!(BlockPos::from_xyz(-1, 0, -16).to_chunk_pos().to_xz(), (-1, -1));
    assert_eq!(BlockPos::from_xyz(-17, 0, 31).to_chunk_pos().to_xz(), (-2, 1));
    assert_eq!(BlockPos::from_xyz(-33554432, 0, 33554431).to_chunk_pos().to_xz(), (-2097152, 2097151));
    assert_eq!(BlockPos::from_xyz(100, 7, -100).to_chunk_pos(), ChunkPos::from_xz(6, -7));
}

#[test]
fn the_default_positions_are_the_origins() {
    assert_eq!(BlockPos::default(), BlockPos::from_xyz(0, 0, 0));
    assert_eq!(ChunkPos::default(), ChunkPos::from_xz(0, 0));
    assert_eq!(ChunkPos::from_xz(3, -4).to_xz(), (3, -4));
}
