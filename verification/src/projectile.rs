//! Projectile kinds and their lifetimes.

use vstd::prelude::*;

verus! {

/// Kinds of projectiles.
#[derive(Debug, Clone, Copy, PartialEq, Eq, Structural)]
pub enum ProjectileType {
    Arrow,
    /// Breaks on impact and applies its potion to an area; carries the potion id.
    SplashPotion(u16),
    /// Breaks on impact and teleports the thrower.
    EnderPearl,
    /// Fired by the ender dragon.
    DragonFireball,
    /// Fired by blazes.
    BlazeFireball,
    /// Fired by ghasts.
    GhastFireball,
}

pub open spec fn spec_lifetime(t: ProjectileType) -> u32 {
    match t {
        ProjectileType::Arrow => 1200,
        ProjectileType::SplashPotion(_) => 600,
        ProjectileType::EnderPearl => 600,
        ProjectileType::DragonFireball => 200,
        ProjectileType::BlazeFireball => 160,
        ProjectileType::GhastFireball => 240,
    }
}

impl ProjectileType {
    /// Ticks before the projectile despawns.
    pub fn lifetime_ticks(&self) -> (res: u32)
        ensures
            res == spec_lifetime(*self),
    {
        match self {
            ProjectileType::Arrow => 1200,
            ProjectileType::SplashPotion(_) => 600,
            ProjectileType::EnderPearl => 600,
            ProjectileType::DragonFireball => 200,
            ProjectileType::BlazeFireball => 160,
            ProjectileType::GhastFireball => 240,
        }
    }

    /// Whether this is a splash potion.
    pub fn is_splash_potion(&self) -> (res: bool)
        ensures
            res == (*self is SplashPotion),
    {
        match self {
            ProjectileType::SplashPotion(_) => true,
            _ => false,
        }
    }

    /// The potion id of a splash potion.
    pub fn potion_id(&self) -> (res: Option<u16>)
        ensures
            res == match *self {
                ProjectileType::SplashPotion(id) => Some(id),
                _ => None,
            },
    {
        match self {
            ProjectileType::SplashPotion(id) => Some(*id),
            _ => None,
        }
    }
}

} // verus!
