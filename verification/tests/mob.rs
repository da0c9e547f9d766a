use mdminecraft_world::biome::{BiomeId};
use mdminecraft_world::mob::{MobType};

#[test]
fn mob_type_parse_roundtrips_canonical_keys() {
    let all = [
        MobType::Pig,
        MobType::Cow,
        MobType::Sheep,
        MobType::Chicken,
        MobType::Villager,
        MobType::Zombie,
        MobType::Skeleton,
        MobType::Spider,
        MobType::Creeper,
        MobType::EnderDragon,
        MobType::Blaze,
        MobType::Ghast,
    ];

    for mob in all {
        let parsed = MobType::parse(mob.as_str()).expect("parse should succeed");
        assert_eq!(mob, parsed);
    }

    assert_eq!(MobType::parse("ZOMBIE"), Some(MobType::Zombie));
    assert_eq!(MobType::parse("unknown"), None);
}

#[test]
fn test_hostile_mob_properties() {
    assert!(MobType::Zombie.is_hostile());
    assert!(MobType::Skeleton.is_hostile());
    assert!(MobType::Spider.is_hostile());
    assert!(MobType::Creeper.is_hostile());
    assert!(MobType::EnderDragon.is_hostile());
    assert!(!MobType::Pig.is_hostile());
    assert!(!MobType::Cow.is_hostile());
    assert!(!MobType::Villager.is_hostile());
}

#[test]
fn test_spider_can_climb() {
    assert!(MobType::Spider.can_climb_walls());
    assert!(!MobType::Zombie.can_climb_walls());
    assert!(!MobType::Pig.can_climb_walls());
}

#[test]
fn test_spider_hostility_time_based() {
    // Spider is neutral in daylight
    assert!(!MobType::Spider.is_hostile_at_time(false));
    assert!(MobType::Spider.is_hostile_at_time(true));

    // Other hostile mobs are always hostile
    assert!(MobType::Zombie.is_hostile_at_time(false));
    assert!(MobType::Zombie.is_hostile_at_time(true));
    assert!(MobType::EnderDragon.is_hostile_at_time(false));
    assert!(MobType::EnderDragon.is_hostile_at_time(true));
}

#[test]
fn test_mob_types_for_biome() {
    let plains = MobType::for_biome(BiomeId::Plains);
    assert_eq!(plains.len(), 5); // Pig, Cow, Sheep, Chicken, Villager
    assert!(plains.iter().any(|(t, _)| *t == MobType::Pig));
    assert!(plains.iter().any(|(t, _)| *t == MobType::Villager));

    let forest = MobType::for_biome(BiomeId::Forest);
    assert_eq!(forest.len(), 3);
    assert!(forest.iter().any(|(t, _)| *t == MobType::Chicken));

    let ocean = MobType::for_biome(BiomeId::Ocean);
    assert_eq!(ocean.len(), 0);
}

#[test]
fn spawn_weights_are_whole_numbers_of_the_table() {
    assert_eq!(
        MobType::for_biome(BiomeId::Hills),
        vec![(MobType::Sheep, 15), (MobType::Cow, 5)]
    );
    assert!(MobType::for_biome(BiomeId::Tundra).is_empty());
}

#[test]
fn test_biome_mob_spawns() {
    // Test various biomes
    assert!(!MobType::for_biome(BiomeId::Hills).is_empty());
    assert!(!MobType::for_biome(BiomeId::Savanna).is_empty());
    assert!(!MobType::for_biome(BiomeId::RainForest).is_empty());
    assert!(!MobType::for_biome(BiomeId::Mountains).is_empty());
    assert!(!MobType::for_biome(BiomeId::BirchForest).is_empty());

    // Biomes with no spawns
    assert!(MobType::for_biome(BiomeId::Ocean).is_empty());
    assert!(MobType::for_biome(BiomeId::Desert).is_empty());
    assert!(MobType::for_biome(BiomeId::Swamp).is_empty());
}

#[test]
fn mob_type_parse_ignores_surrounding_white_space() {
    assert_eq!(MobType::parse("  Zombie\n"), Some(MobType::Zombie));
    assert_eq!(MobType::parse("\u{3000}pig\u{a0}"), Some(MobType::Pig));
    assert_eq!(MobType::parse("\tEnder_Dragon "), Some(MobType::EnderDragon));
    assert_eq!(MobType::parse("dra gon"), None);
    assert_eq!(MobType::parse("   "), None);
}
