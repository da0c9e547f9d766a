use mdminecraft_world::mob::MobType;

#[test]
fn parse_ignores_ascii_case_and_spaces() {
    assert_eq!(MobType::parse("  ZoMbIe "), MobType::parse("zombie"));
    assert_eq!(MobType::parse("ENDER_DRAGON"), Some(MobType::EnderDragon));
    assert_eq!(MobType::parse("Sheep\t"), Some(MobType::Sheep));
    assert_eq!(MobType::parse("PIGS"), None);
}
