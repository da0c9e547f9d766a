use mdminecraft_world::potion::{PotionType, StatusEffect, StatusEffectType, StatusEffects};

#[test]
fn test_status_effect_tick() {
    let mut effect = StatusEffect::new(StatusEffectType::Speed, 0, 3);
    assert!(!effect.tick()); // 2 remaining
    assert!(!effect.tick()); // 1 remaining
    assert!(effect.tick()); // 0 remaining, expired
}

#[test]
fn test_instant_effect() {
    let mut effect = StatusEffect::instant(StatusEffectType::InstantHealth, 0);
    assert!(effect.effect_type.is_instant());
    assert!(effect.tick()); // Instant effects expire immediately
}

#[test]
fn test_status_effects_add() {
    let mut effects = StatusEffects::new();

    // Add Speed I for 60 seconds
    effects.add(StatusEffect::new(StatusEffectType::Speed, 0, 1200));
    assert!(effects.has(StatusEffectType::Speed));
    assert_eq!(effects.amplifier(StatusEffectType::Speed), Some(0));

    // Try to add Speed I with shorter duration - should not override
    effects.add(StatusEffect::new(StatusEffectType::Speed, 0, 600));
    assert_eq!(effects.get(StatusEffectType::Speed).unwrap().duration_ticks, 1200);

    // Add Speed II - should override
    effects.add(StatusEffect::new(StatusEffectType::Speed, 1, 400));
    assert_eq!(effects.amplifier(StatusEffectType::Speed), Some(1));
}

#[test]
fn test_potion_type_effect() {
    assert!(PotionType::Water.effect().is_none());
    assert!(PotionType::Awkward.effect().is_none());
    assert_eq!(PotionType::Swiftness.effect(), Some(StatusEffectType::Speed));
    assert_eq!(PotionType::Healing.effect(), Some(StatusEffectType::InstantHealth));
}

#[test]
fn test_potion_create_effect() {
    let effect = PotionType::Swiftness.create_effect(0, false).unwrap();
    assert_eq!(effect.effect_type, StatusEffectType::Speed);
    assert_eq!(effect.amplifier, 0);
    assert_eq!(effect.duration_ticks, 3600); // 3 minutes

    // Extended
    let extended = PotionType::Swiftness.create_effect(0, true).unwrap();
    assert_eq!(extended.duration_ticks, 3600 * 8 / 3); // 8 minutes
}

#[test]
fn test_effect_types() {
    assert!(StatusEffectType::Speed.is_positive());
    assert!(!StatusEffectType::Slowness.is_positive());
    assert!(StatusEffectType::InstantHealth.is_instant());
    assert!(!StatusEffectType::Speed.is_instant());
}
