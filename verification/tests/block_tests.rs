use mc_types::block::{
    global_id_system, Cursor, Error, HashSystem, Id, IdOperate, IdSystem, Meta, Pos, Read,
    ReadExact, Result, Seek, SeekFrom, Write, WriteExact, ID_BLOCK_AIR, ID_BLOCK_SPONGE,
    ID_BLOCK_STONE,
};

// every block is "minecraft:air" except (0, 60, 0) is "minecraft:sponge"
struct TestWorld(HashSystem);

impl TestWorld {
    pub fn new() -> TestWorld {
        TestWorld(global_id_system())
    }
}

impl ReadExact for TestWorld {
    fn read_block_exact(&self, pos: Pos) -> Result<Meta> {
        Ok(match pos {
            p if p != Pos::from_xyz(0, 60, 0) => self.0.block_id_to_meta(Id::new("minecraft:air")),
            _ => self.0.block_id_to_meta(Id::new("minecraft:sponge")),
        })
    }

    fn contain_block_exact(&self, _pos: Pos) -> Result<bool> {
        Ok(true) // every block is valid
    }
}

impl WriteExact for TestWorld {
    fn write_block_exact(&mut self, _pos: Pos, _meta: Meta) -> Result<()> {
        Err(Error::Backend("Operation not supported".to_string()))
    }

    fn flush_block(&mut self) -> Result<()> {
        Ok(()) // no-op
    }
}

impl IdOperate for TestWorld {
    type System = HashSystem;

    fn block_id_system(&self) -> &HashSystem {
        &self.0
    }
}

#[test]
fn read_write_block() -> Result<()> {
    let world = TestWorld::new();
    let mut cur = Cursor::new(world);
    assert_eq!(cur.get_block_id(Pos::from_xyz(0, 0, 0))?, "minecraft:air");
    assert_eq!(cur.get_block_id(Pos::from_xyz(0, 60, 0))?, "minecraft:sponge");
    Ok(())
}

#[test]
#[should_panic]
fn write_block() {
    let world = TestWorld::new();
    let mut cur = Cursor::new(world);
    cur.set_block_id(Pos::from_xyz(1, 1, 1), Id::new("minecraft:stone")).unwrap();
}

#[test]
fn seek() -> Result<()> {
    let mut cur = Cursor::new(TestWorld::new());
    cur.set_position(Pos::from_xyz(10, 10, 10));
    cur.seek_block(SeekFrom::Relative(2, -1, 1))?;
    assert_eq!(cur.position(), Pos::from_xyz(12, 9, 11));
    Ok(())
}

#[test]
fn seek_absolute_goes_to_the_position() {
    let mut cur = Cursor::new(TestWorld::new());
    cur.seek_block(SeekFrom::Absolute(Pos::from_xyz(-5, 70, 9))).unwrap();
    assert_eq!(cur.position().to_xyz(), (-5, 70, 9));
}

#[test]
fn seek_relative_wraps_like_any_coordinates() {
    let mut cur = Cursor::new(TestWorld::new());
    cur.set_position(Pos::from_xyz(33554431, 2047, -33554432));
    cur.seek_block(SeekFrom::Relative(1, 1, -1)).unwrap();
    assert_eq!(cur.position().to_xyz(), (-33554432, -2048, 33554431));
    cur.set_position(Pos::from_xyz(0, 0, 0));
    cur.seek_block(SeekFrom::Relative(i32::MAX, i32::MIN, i32::MAX)).unwrap();
    assert_eq!(cur.position(), Pos::from_xyz(i32::MAX, i32::MIN, i32::MAX));
}

#[test]
fn a_new_cursor_stands_at_the_origin() {
    let cur = Cursor::new(TestWorld::new());
    assert_eq!(cur.position().to_u64_repr(), 0);
    assert_eq!(cur.position().to_xyz(), (0, 0, 0));
    let world = cur.into_inner();
    assert!(world.0.has_block_id(Id::new("minecraft:stone")));
}

#[test]
fn cursor_reads_and_checks_at_its_position() {
    let mut cur = Cursor::new(TestWorld::new());
    cur.set_position(Pos::from_xyz(0, 60, 0));
    let sponge = cur.read_block().unwrap();
    assert_eq!(sponge, Meta::new(3));
    assert_eq!(cur.check_current_block(), Ok(true));
    assert_eq!(cur.get_block_meta(Pos::from_xyz(4, 4, 4)), Ok(Meta::new(1)));
    assert_eq!(cur.position(), Pos::from_xyz(4, 4, 4));
}

#[test]
fn cursor_passes_the_failure_of_the_storage_on() {
    let mut cur = Cursor::new(TestWorld::new());
    let failed = cur.set_block_meta(Pos::from_xyz(1, 2, 3), Meta::new(2));
    assert_eq!(failed, Err(Error::Backend("Operation not supported".to_string())));
    assert_eq!(cur.position(), Pos::from_xyz(1, 2, 3));
    assert_eq!(cur.write_block(Meta::new(2)), Err(Error::Backend("Operation not supported".to_string())));
    assert_eq!(Write::flush_block(&mut cur), Ok(()));
}

#[test]
fn an_unknown_identifier_is_an_error_and_moves_nothing() {
    let mut cur = Cursor::new(TestWorld::new());
    cur.set_position(Pos::from_xyz(7, 7, 7));
    let r = cur.set_block_id(Pos::from_xyz(1, 1, 1), Id::new("minecraft:dirt"));
    assert_eq!(r, Err(Error::UnknownId));
    assert_eq!(cur.position(), Pos::from_xyz(7, 7, 7));
}

struct Unnamed;

impl ReadExact for Unnamed {
    fn read_block_exact(&self, _pos: Pos) -> Result<Meta> {
        Ok(Meta::new(9))
    }

    fn contain_block_exact(&self, _pos: Pos) -> Result<bool> {
        Ok(true)
    }
}

struct NoNames;

impl IdSystem for NoNames {
    fn has_block_meta(&self, _meta: Meta) -> bool {
        false
    }

    fn block_meta_to_id(&self, _meta: Meta) -> Id {
        panic!("no state has a name")
    }

    fn has_block_id(&self, _id: Id) -> bool {
        false
    }

    fn block_id_to_meta(&self, _id: Id) -> Meta {
        panic!("no name has a state")
    }
}

impl IdOperate for Unnamed {
    type System = NoNames;

    fn block_id_system(&self) -> &NoNames {
        &NoNames
    }
}

#[test]
fn a_state_without_identifier_is_an_error() {
    let mut cur = Cursor::new(Unnamed);
    assert_eq!(cur.get_block_id(Pos::from_xyz(0, 0, 0)), Err(Error::UnknownState(Meta::new(9))));
}

#[test]
fn the_global_registry_knows_three_blocks() {
    let sys = global_id_system();
    assert_eq!(sys.block_id_to_meta(Id::new(ID_BLOCK_AIR)), Meta::new(1));
    assert_eq!(sys.block_id_to_meta(Id::new(ID_BLOCK_STONE)), Meta::new(2));
    assert_eq!(sys.block_id_to_meta(Id::new(ID_BLOCK_SPONGE)), Meta::new(3));
    assert_eq!(sys.block_meta_to_id(Meta::new(2)), "minecraft:stone");
    assert!(sys.has_block_meta(Meta::new(3)));
    assert!(!sys.has_block_meta(Meta::new(0)));
    assert!(!sys.has_block_meta(Meta::new(4)));
    assert!(!sys.has_block_id(Id::new("minecraft:dirt")));
    assert!(!sys.needs_buffer(Meta::new(1)));
}

#[test]
fn meta_keeps_its_number() {
    assert_eq!(Meta::new(300).to_u16(), 300);
    assert_eq!(Meta::new(0), Meta::new(0));
    assert_ne!(Meta::new(1), Meta::new(2));
}
