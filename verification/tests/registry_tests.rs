use mc_types::block::{HashSystem, Id, IdSystem, Meta};
use mc_types::id::str_eq;

#[test]
fn registering_gives_both_lookups() {
    let mut sys = HashSystem::new();
    let air = sys.register(Id::new("air"), false);
    let sign = sys.register(Id::new("sign"), true);
    assert_eq!(air, Meta::new(1));
    assert_eq!(sign, Meta::new(2));
    assert_eq!(sys.state_to_id(air), Some(Id::new("air")));
    assert_eq!(sys.state_to_id(sign), Some(Id::new("sign")));
    assert_eq!(sys.id_to_state(&Id::new("air")), Some(air));
    assert_eq!(sys.id_to_state(&Id::new("sign")), Some(sign));
}

#[test]
fn lookups_of_the_unregistered_give_none() {
    let mut sys = HashSystem::new();
    sys.register_block(Id::new("stone"));
    assert_eq!(sys.state_to_id(Meta::new(0)), None);
    assert_eq!(sys.state_to_id(Meta::new(2)), None);
    assert_eq!(sys.state_to_id(Meta::new(65535)), None);
    assert_eq!(sys.id_to_state(&Id::new("dirt")), None);
    assert_eq!(sys.id_to_state(&Id::new("")), None);
}

#[test]
fn registering_again_keeps_the_state_and_takes_the_new_flag() {
    let mut sys = HashSystem::new();
    let first = sys.register(Id::new("sign"), false);
    assert!(!sys.needs_buffer(first));
    let other = sys.register(Id::new("chest"), true);
    let second = sys.register(Id::new("sign"), true);
    assert_eq!(first, second);
    assert!(sys.needs_buffer(first));
    let third = sys.register(Id::new("sign"), false);
    assert_eq!(first, third);
    assert!(!sys.needs_buffer(first));
    assert!(sys.needs_buffer(other));
    let next = sys.register(Id::new("lamp"), false);
    assert_eq!(next, Meta::new(3));
}

#[test]
fn register_block_registers_without_buffer() {
    let mut sys = HashSystem::new();
    let sign = sys.register(Id::new("sign"), true);
    assert!(sys.needs_buffer(sign));
    assert_eq!(sys.register_block(Id::new("sign")), sign);
    assert!(!sys.needs_buffer(sign));
}

#[test]
fn states_start_at_the_base() {
    let mut sys = HashSystem::with_base(0);
    assert_eq!(sys.register_block(Id::new("air")), Meta::new(0));
    assert_eq!(sys.register_block(Id::new("stone")), Meta::new(1));
    let mut high = HashSystem::with_base(300);
    assert_eq!(high.register_block(Id::new("air")), Meta::new(300));
    assert_eq!(high.state_to_id(Meta::new(299)), None);
    assert_eq!(high.state_to_id(Meta::new(300)), Some(Id::new("air")));
    let mut usual = HashSystem::default();
    assert_eq!(usual.register_block(Id::new("air")), Meta::new(1));
}

#[test]
fn a_full_registry_takes_no_new_identifier() {
    let mut sys = HashSystem::with_base(65535);
    assert!(sys.has_room());
    assert_eq!(sys.try_register(Id::new("last"), true), Some(Meta::new(65535)));
    assert!(!sys.has_room());
    assert_eq!(sys.try_register(Id::new("late"), true), None);
    assert_eq!(sys.id_to_state(&Id::new("late")), None);
    assert_eq!(sys.try_register(Id::new("last"), false), Some(Meta::new(65535)));
    assert!(!sys.needs_buffer(Meta::new(65535)));
}

#[test]
fn the_flag_can_be_set_and_cleared() {
    let mut sys = HashSystem::new();
    let sign = sys.register_block(Id::new("sign"));
    assert_eq!(sys.buffer_template(sign), None);
    sys.set_buffer_requirement(sign, true);
    sys.set_buffer_requirement(sign, true);
    assert!(sys.needs_buffer(sign));
    assert_eq!(sys.buffer_template(sign), Some(Vec::new()));
    sys.set_buffer_requirement(sign, false);
    assert!(!sys.needs_buffer(sign));
    assert_eq!(sys.buffer_template(sign), None);
    sys.set_buffer_requirement(Meta::new(900), true);
    assert!(sys.needs_buffer(Meta::new(900)));
    assert_eq!(sys.state_to_id(Meta::new(900)), None);
}

#[test]
fn the_table_answers_through_its_interface() {
    let mut sys = HashSystem::new();
    let stone = sys.register_block(Id::new("minecraft:stone"));
    assert!(sys.has_block_meta(stone));
    assert!(sys.has_block_id(Id::new("minecraft:stone")));
    assert_eq!(sys.block_meta_to_id(stone), Id::new("minecraft:stone"));
    assert_eq!(sys.block_id_to_meta(Id::new("minecraft:stone")), stone);
}

#[test]
fn identifiers_compare_by_their_text() {
    let id = Id::new("minecraft:stone");
    assert_eq!(id, "minecraft:stone");
    assert_eq!(id, Id::new("minecraft:stone"));
    assert_ne!(id, Id::new("minecraft:stonf"));
    assert_ne!(id, "minecraft:ston");
    assert_eq!(id.as_str(), "minecraft:stone");
    assert_eq!(id.to_string(), "minecraft:stone".to_string());
    assert_eq!(id.clone(), id);
}

#[test]
fn texts_are_equal_byte_for_byte() {
    assert!(str_eq("", ""));
    assert!(str_eq("木牌", "木牌"));
    assert!(!str_eq("a", "b"));
    assert!(!str_eq("a", "ab"));
    assert!(!str_eq("ab", "a"));
}
