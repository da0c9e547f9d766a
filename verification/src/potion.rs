//! Status effects (one per kind on an entity) and the potions that grant them.

use vstd::prelude::*;

verus! {

/// Status effect kinds. Each effect has an amplifier (level - 1).
#[derive(Debug, Clone, Copy, PartialEq, Eq, Hash, Structural)]
pub enum StatusEffectType {
    /// Increases movement speed (20% per level).
    Speed,
    /// Increases mining speed.
    Haste,
    /// Increases attack damage (+3 per level).
    Strength,
    /// Instantly restores health (4 HP per level).
    InstantHealth,
    /// Increases jump height.
    JumpBoost,
    /// Restores health over time.
    Regeneration,
    /// Reduces damage taken (20% per level).
    Resistance,
    /// Prevents fire damage.
    FireResistance,
    /// Allows breathing underwater.
    WaterBreathing,
    /// Makes the entity invisible.
    Invisibility,
    /// Allows seeing in the dark.
    NightVision,
    /// Adds extra temporary health.
    Absorption,
    /// Restores hunger.
    Saturation,
    /// Slows falling speed.
    SlowFalling,
    /// Increases luck for loot.
    Luck,
    /// Decreases movement speed (15% per level).
    Slowness,
    /// Decreases mining speed.
    MiningFatigue,
    /// Instantly deals damage (3 HP per level).
    InstantDamage,
    /// Wobbles the view.
    Nausea,
    /// Reduces visibility.
    Blindness,
    /// Increases hunger depletion.
    Hunger,
    /// Decreases attack damage (-4 per level).
    Weakness,
    /// Deals damage over time.
    Poison,
    /// Deals damage over time and can kill.
    Wither,
    /// Decreases luck for loot.
    BadLuck,
}

/// Highest amplifier an effect kind can have.
pub open spec fn spec_max_amplifier(t: StatusEffectType) -> u8 {
    match t {
        StatusEffectType::Speed => 2,
        StatusEffectType::Haste => 2,
        StatusEffectType::Strength => 2,
        StatusEffectType::InstantHealth => 1,
        StatusEffectType::JumpBoost => 1,
        StatusEffectType::Regeneration => 1,
        StatusEffectType::Resistance => 3,
        StatusEffectType::Absorption => 3,
        StatusEffectType::Slowness => 3,
        StatusEffectType::MiningFatigue => 2,
        StatusEffectType::InstantDamage => 1,
        StatusEffectType::Hunger => 2,
        StatusEffectType::Poison => 1,
        StatusEffectType::Wither => 1,
        _ => 0,
    }
}

/// The beneficial effect kinds.
pub open spec fn spec_is_positive(t: StatusEffectType) -> bool {
    match t {
        StatusEffectType::Speed | StatusEffectType::Haste | StatusEffectType::Strength
        | StatusEffectType::InstantHealth | StatusEffectType::JumpBoost
        | StatusEffectType::Regeneration | StatusEffectType::Resistance
        | StatusEffectType::FireResistance | StatusEffectType::WaterBreathing
        | StatusEffectType::Invisibility | StatusEffectType::NightVision
        | StatusEffectType::Absorption | StatusEffectType::Saturation
        | StatusEffectType::SlowFalling | StatusEffectType::Luck => true,
        _ => false,
    }
}

/// The effect kinds applied once rather than over time.
pub open spec fn spec_is_instant(t: StatusEffectType) -> bool {
    t == StatusEffectType::InstantHealth || t == StatusEffectType::InstantDamage || t
        == StatusEffectType::Saturation
}

impl StatusEffectType {
    /// Highest amplifier (level - 1) of this effect kind.
    pub fn max_amplifier(&self) -> (res: u8)
        ensures
            res == spec_max_amplifier(*self),
    {
        match self {
            StatusEffectType::Speed => 2,
            StatusEffectType::Haste => 2,
            StatusEffectType::Strength => 2,
            StatusEffectType::InstantHealth => 1,
            StatusEffectType::JumpBoost => 1,
            StatusEffectType::Regeneration => 1,
            StatusEffectType::Resistance => 3,
            StatusEffectType::FireResistance => 0,
            StatusEffectType::WaterBreathing => 0,
            StatusEffectType::Invisibility => 0,
            StatusEffectType::NightVision => 0,
            StatusEffectType::Absorption => 3,
            StatusEffectType::Saturation => 0,
            StatusEffectType::SlowFalling => 0,
            StatusEffectType::Luck => 0,
            StatusEffectType::Slowness => 3,
            StatusEffectType::MiningFatigue => 2,
            StatusEffectType::InstantDamage => 1,
            StatusEffectType::Nausea => 0,
            StatusEffectType::Blindness => 0,
            StatusEffectType::Hunger => 2,
            StatusEffectType::Weakness => 0,
            StatusEffectType::Poison => 1,
            StatusEffectType::Wither => 1,
            StatusEffectType::BadLuck => 0,
        }
    }

    /// Whether this effect kind is beneficial.
    pub fn is_positive(&self) -> (res: bool)
        ensures
            res == spec_is_positive(*self),
    {
        match self {
            StatusEffectType::Speed | StatusEffectType::Haste | StatusEffectType::Strength
            | StatusEffectType::InstantHealth | StatusEffectType::JumpBoost
            | StatusEffectType::Regeneration | StatusEffectType::Resistance
            | StatusEffectType::FireResistance | StatusEffectType::WaterBreathing
            | StatusEffectType::Invisibility | StatusEffectType::NightVision
            | StatusEffectType::Absorption | StatusEffectType::Saturation
            | StatusEffectType::SlowFalling | StatusEffectType::Luck => true,
            _ => false,
        }
    }

    /// Whether this effect kind is applied once rather than over time.
    pub fn is_instant(&self) -> (res: bool)
        ensures
            res == spec_is_instant(*self),
    {
        match self {
            StatusEffectType::InstantHealth | StatusEffectType::InstantDamage
            | StatusEffectType::Saturation => true,
            _ => false,
        }
    }
}

/// An active status effect with its remaining duration.
#[derive(Debug, Clone, Copy, PartialEq, Eq, Structural)]
pub struct StatusEffect {
    /// The kind of effect.
    pub effect_type: StatusEffectType,
    /// The amplifier (level - 1): 0 is level I.
    pub amplifier: u8,
    /// Remaining duration in game ticks (20 per second); 0 for instant effects.
    pub duration_ticks: u32,
    /// Whether particles are shown.
    pub show_particles: bool,
}

/// The effect after one tick: the duration counts down to zero; instant effects are left as
/// they are (they expire anyway).
pub open spec fn spec_ticked(e: StatusEffect) -> StatusEffect {
    if spec_is_instant(e.effect_type) || e.duration_ticks == 0 {
        e
    } else {
        StatusEffect { duration_ticks: (e.duration_ticks - 1) as u32, ..e }
    }
}

/// Whether the effect ends with this tick.
pub open spec fn spec_expires(e: StatusEffect) -> bool {
    spec_is_instant(e.effect_type) || e.duration_ticks <= 1
}

impl StatusEffect {
    /// A new effect; the amplifier is capped at the kind's maximum and particles are shown.
    pub fn new(effect_type: StatusEffectType, amplifier: u8, duration_ticks: u32) -> (res: Self)
        ensures
            res.effect_type == effect_type,
            res.amplifier == (if amplifier < spec_max_amplifier(effect_type) {
                amplifier
            } else {
                spec_max_amplifier(effect_type)
            }),
            res.duration_ticks == duration_ticks,
            res.show_particles,
    {
        let max_amp = effect_type.max_amplifier();
        let amp = if amplifier < max_amp {
            amplifier
        } else {
            max_amp
        };
        StatusEffect { effect_type, amplifier: amp, duration_ticks, show_particles: true }
    }

    /// An instant effect: duration 0.
    pub fn instant(effect_type: StatusEffectType, amplifier: u8) -> (res: Self)
        ensures
            res == Self::spec_new(effect_type, amplifier, 0),
    {
        Self::new(effect_type, amplifier, 0)
    }

    /// The effect `new` builds.
    pub open spec fn spec_new(effect_type: StatusEffectType, amplifier: u8, duration_ticks: u32) -> Self {
        StatusEffect {
            effect_type,
            amplifier: if amplifier < spec_max_amplifier(effect_type) {
                amplifier
            } else {
                spec_max_amplifier(effect_type)
            },
            duration_ticks,
            show_particles: true,
        }
    }

    /// The level, counted from 1.
    pub fn level(&self) -> (res: u8)
        requires
            self.amplifier < 255,
        ensures
            res == self.amplifier + 1,
    {
        self.amplifier + 1
    }

    /// Count the duration down by one tick; true when the effect has expired.
    pub fn tick(&mut self) -> (expired: bool)
        ensures
            expired == spec_expires(*old(self)),
            *final(self) == spec_ticked(*old(self)),
    {
        if self.effect_type.is_instant() {
            return true;
        }
        if self.duration_ticks > 0 {
            self.duration_ticks = self.duration_ticks - 1;
        }
        self.duration_ticks == 0
    }
}

/// Whether some effect in `s` is of kind `t`.
pub open spec fn has_type(s: Seq<StatusEffect>, t: StatusEffectType) -> bool {
    exists|k: int| 0 <= k < s.len() && (#[trigger] s[k]).effect_type == t
}

/// No two effects in `s` share a kind.
pub open spec fn unique_types(s: Seq<StatusEffect>) -> bool {
    forall|i: int, j: int|
        0 <= i < s.len() && 0 <= j < s.len() && i != j ==> (#[trigger] s[i]).effect_type != (
        #[trigger] s[j]).effect_type
}

/// What an existing effect becomes when `e` of the same kind is added: a higher amplifier
/// replaces it, the same amplifier with a longer duration extends it, anything else is ignored.
pub open spec fn spec_merged(existing: StatusEffect, e: StatusEffect) -> StatusEffect {
    if e.amplifier > existing.amplifier {
        e
    } else if e.amplifier == existing.amplifier && e.duration_ticks > existing.duration_ticks {
        StatusEffect { duration_ticks: e.duration_ticks, ..existing }
    } else {
        existing
    }
}

/// Merging an effect into an active one of its kind keeps the stronger: the amplifier is the
/// larger of the two and never drops; at equal amplifiers the duration is the longer of the
/// two; a stronger new effect replaces the old one whole, and a weaker one changes nothing.
pub proof fn law_merge_keeps_strongest_and_longest(existing: StatusEffect, e: StatusEffect)
    requires
        existing.effect_type == e.effect_type,
    ensures
        spec_merged(existing, e).effect_type == existing.effect_type,
        spec_merged(existing, e).amplifier == if e.amplifier > existing.amplifier {
            e.amplifier
        } else {
            existing.amplifier
        },
        e.amplifier == existing.amplifier ==> spec_merged(existing, e).duration_ticks == if e.duration_ticks
            > existing.duration_ticks {
            e.duration_ticks
        } else {
            existing.duration_ticks
        },
        e.amplifier > existing.amplifier ==> spec_merged(existing, e) == e,
        e.amplifier < existing.amplifier ==> spec_merged(existing, e) == existing,
{
}

/// The effects that stay after one tick, each counted down, in order.
pub open spec fn spec_kept(s: Seq<StatusEffect>) -> Seq<StatusEffect>
    decreases s.len(),
{
    if s.len() == 0 {
        Seq::empty()
    } else if spec_expires(s.last()) {
        spec_kept(s.drop_last())
    } else {
        spec_kept(s.drop_last()).push(spec_ticked(s.last()))
    }
}

/// The kinds of the effects that expire with one tick, in order.
pub open spec fn spec_expired(s: Seq<StatusEffect>) -> Seq<StatusEffectType>
    decreases s.len(),
{
    if s.len() == 0 {
        Seq::empty()
    } else if spec_expires(s.last()) {
        spec_expired(s.drop_last()).push(s.last().effect_type)
    } else {
        spec_expired(s.drop_last())
    }
}

proof fn lemma_kept_types(s: Seq<StatusEffect>)
    ensures
        forall|t: StatusEffectType| has_type(spec_kept(s), t) ==> #[trigger] has_type(s, t),
        unique_types(s) ==> unique_types(spec_kept(s)),
    decreases s.len(),
{
    if s.len() > 0 {
        let d = s.drop_last();
        lemma_kept_types(d);
        assert forall|t: StatusEffectType| has_type(spec_kept(s), t) implies #[trigger] has_type(
            s,
            t,
        ) by {
            let k = choose|k: int|
                0 <= k < spec_kept(s).len() && (#[trigger] spec_kept(s)[k]).effect_type == t;
            if k < spec_kept(d).len() {
                assert(spec_kept(d)[k] == spec_kept(s)[k]);
                assert(has_type(d, t));
                let j = choose|j: int| 0 <= j < d.len() && (#[trigger] d[j]).effect_type == t;
                assert(s[j] == d[j]);
            } else {
                assert(s[s.len() - 1].effect_type == t);
            }
        }
        if unique_types(s) && !spec_expires(s.last()) {
            let t = s.last().effect_type;
            assert(unique_types(d)) by {
                assert forall|i: int, j: int|
                    0 <= i < d.len() && 0 <= j < d.len() && i != j implies (#[trigger] d[i]).effect_type
                    != (#[trigger] d[j]).effect_type by {
                    assert(d[i] == s[i] && d[j] == s[j]);
                }
            }
            assert(!has_type(d, t)) by {
                if has_type(d, t) {
                    let j = choose|j: int| 0 <= j < d.len() && (#[trigger] d[j]).effect_type == t;
                    assert(s[j] == d[j]);
                }
            }
            assert(!has_type(spec_kept(d), t));
            let ks = spec_kept(s);
            assert forall|i: int, j: int|
                0 <= i < ks.len() && 0 <= j < ks.len() && i != j implies (#[trigger] ks[i]).effect_type
                != (#[trigger] ks[j]).effect_type by {
                let n = spec_kept(d).len();
                if i < n && j < n {
                    assert(ks[i] == spec_kept(d)[i] && ks[j] == spec_kept(d)[j]);
                } else if i < n {
                    assert(ks[i] == spec_kept(d)[i]);
                } else {
                    assert(ks[j] == spec_kept(d)[j]);
                }
            }
        } else if unique_types(s) {
            assert(unique_types(d)) by {
                assert forall|i: int, j: int|
                    0 <= i < d.len() && 0 <= j < d.len() && i != j implies (#[trigger] d[i]).effect_type
                    != (#[trigger] d[j]).effect_type by {
                    assert(d[i] == s[i] && d[j] == s[j]);
                }
            }
        }
    }
}

/// The status effects active on an entity, at most one of each kind.
#[derive(Debug, Clone)]
pub struct StatusEffects {
    effects: Vec<StatusEffect>,
}

impl StatusEffects {
    /// The active effects, in the order they were added.
    pub closed spec fn view(&self) -> Seq<StatusEffect> {
        self.effects@
    }

    /// At most one effect of each kind.
    pub open spec fn wf(&self) -> bool {
        unique_types(self@)
    }

    /// No effects.
    pub fn new() -> (res: Self)
        ensures
            res.wf(),
            res@ == Seq::<StatusEffect>::empty(),
    {
        StatusEffects { effects: Vec::new() }
    }

    fn index_of(&self, effect_type: StatusEffectType) -> (res: Option<usize>)
        ensures
            match res {
                Some(k) => k < self@.len() && self@[k as int].effect_type == effect_type,
                None => !has_type(self@, effect_type),
            },
    {
        let mut i: usize = 0;
        while i < self.effects.len()
            invariant
                i <= self@.len(),
                self@ == self.effects@,
                forall|j: int| 0 <= j < i ==> (#[trigger] self@[j]).effect_type != effect_type,
            decreases self@.len() - i,
        {
            if self.effects[i].effect_type == effect_type {
                return Some(i);
            }
            i = i + 1;
        }
        None
    }

    /// Add an effect. An effect of the same kind already active is replaced when the new one
    /// has a higher amplifier, extended when it has the same amplifier and a longer duration,
    /// and otherwise kept; a new kind is appended.
    pub fn add(&mut self, effect: StatusEffect)
        requires
            old(self).wf(),
        ensures
            final(self).wf(),
            !has_type(old(self)@, effect.effect_type) ==> final(self)@ == old(self)@.push(effect),
            forall|k: int|
                0 <= k < old(self)@.len() && (#[trigger] old(self)@[k]).effect_type
                    == effect.effect_type ==> final(self)@ == old(self)@.update(
                    k,
                    spec_merged(old(self)@[k], effect),
                ),
    {
        match self.index_of(effect.effect_type) {
            Some(k) => {
                let existing = self.effects[k];
                let merged = if effect.amplifier > existing.amplifier {
                    effect
                } else if effect.amplifier == existing.amplifier && effect.duration_ticks
                    > existing.duration_ticks {
                    StatusEffect { duration_ticks: effect.duration_ticks, ..existing }
                } else {
                    existing
                };
                self.effects.set(k, merged);
                proof {
                    let s = old(self)@;
                    assert(self@ == s.update(k as int, merged));
                    assert forall|i: int, j: int|
                        0 <= i < self@.len() && 0 <= j < self@.len() && i != j implies (
                        #[trigger] self@[i]).effect_type != (#[trigger] self@[j]).effect_type by {
                        assert(s[i].effect_type == self@[i].effect_type);
                        assert(s[j].effect_type == self@[j].effect_type);
                    }
                }
            },
            None => {
                self.effects.push(effect);
                proof {
                    let s = old(self)@;
                    assert forall|i: int, j: int|
                        0 <= i < self@.len() && 0 <= j < self@.len() && i != j implies (
                        #[trigger] self@[i]).effect_type != (#[trigger] self@[j]).effect_type by {
                        if i < s.len() && j < s.len() {
                            assert(s[i] == self@[i] && s[j] == self@[j]);
                        } else if i < s.len() {
                            assert(s[i] == self@[i]);
                        } else {
                            assert(s[j] == self@[j]);
                        }
                    }
                }
            },
        }
    }

    /// Remove the effect of a kind, if active.
    pub fn remove(&mut self, effect_type: StatusEffectType)
        requires
            old(self).wf(),
        ensures
            final(self).wf(),
            !has_type(old(self)@, effect_type) ==> final(self)@ == old(self)@,
            forall|k: int|
                0 <= k < old(self)@.len() && (#[trigger] old(self)@[k]).effect_type == effect_type
                    ==> final(self)@ == old(self)@.remove(k),
            !has_type(final(self)@, effect_type),
    {
        match self.index_of(effect_type) {
            Some(k) => {
                self.effects.remove(k);
                proof {
                    let s = old(self)@;
                    assert forall|i: int, j: int|
                        0 <= i < self@.len() && 0 <= j < self@.len() && i != j implies (
                        #[trigger] self@[i]).effect_type != (#[trigger] self@[j]).effect_type by {
                        let si = if i < k { i } else { i + 1 };
                        let sj = if j < k { j } else { j + 1 };
                        assert(self@[i] == s[si] && self@[j] == s[sj]);
                    }
                    if has_type(self@, effect_type) {
                        let i = choose|i: int|
                            0 <= i < self@.len() && (#[trigger] self@[i]).effect_type == effect_type;
                        let si = if i < k { i } else { i + 1 };
                        assert(self@[i] == s[si]);
                    }
                }
            },
            None => {},
        }
    }

    /// Remove every effect.
    pub fn clear(&mut self)
        ensures
            final(self).wf(),
            final(self)@ == Seq::<StatusEffect>::empty(),
    {
        self.effects.clear();
    }

    /// Whether an effect of the kind is active.
    pub fn has(&self, effect_type: StatusEffectType) -> (res: bool)
        ensures
            res == has_type(self@, effect_type),
    {
        self.index_of(effect_type).is_some()
    }

    /// The amplifier of the active effect of the kind.
    pub fn amplifier(&self, effect_type: StatusEffectType) -> (res: Option<u8>)
        requires
            self.wf(),
        ensures
            !has_type(self@, effect_type) ==> res.is_none(),
            forall|k: int|
                0 <= k < self@.len() && (#[trigger] self@[k]).effect_type == effect_type ==> res
                    == Some(self@[k].amplifier),
    {
        match self.index_of(effect_type) {
            Some(k) => Some(self.effects[k].amplifier),
            None => None,
        }
    }

    /// The active effect of the kind.
    pub fn get(&self, effect_type: StatusEffectType) -> (res: Option<&StatusEffect>)
        requires
            self.wf(),
        ensures
            !has_type(self@, effect_type) ==> res.is_none(),
            forall|k: int|
                0 <= k < self@.len() && (#[trigger] self@[k]).effect_type == effect_type ==> res
                    == Some(&self@[k]),
    {
        match self.index_of(effect_type) {
            Some(k) => Some(&self.effects[k]),
            None => None,
        }
    }

    /// Count every effect down by one tick and drop those that expire; returns the kinds that
    /// expired, in order.
    pub fn tick(&mut self) -> (expired: Vec<StatusEffectType>)
        requires
            old(self).wf(),
        ensures
            final(self).wf(),
            final(self)@ == spec_kept(old(self)@),
            expired@ == spec_expired(old(self)@),
    {
        let mut kept: Vec<StatusEffect> = Vec::new();
        let mut expired: Vec<StatusEffectType> = Vec::new();
        let mut i: usize = 0;
        while i < self.effects.len()
            invariant
                i <= self@.len(),
                self@ == old(self)@,
                kept@ == spec_kept(self@.take(i as int)),
                expired@ == spec_expired(self@.take(i as int)),
            decreases self@.len() - i,
        {
            let mut e = self.effects[i];
            proof {
                assert(self@.take(i as int + 1).drop_last() =~= self@.take(i as int));
                assert(self@.take(i as int + 1).last() == self@[i as int]);
            }
            if e.tick() {
                expired.push(e.effect_type);
            } else {
                kept.push(e);
            }
            i = i + 1;
        }
        proof {
            assert(self@.take(self@.len() as int) =~= self@);
            lemma_kept_types(old(self)@);
        }
        self.effects = kept;
        expired
    }

    /// The active effects, in the order they were added.
    pub fn iter(&self) -> (res: &[StatusEffect])
        ensures
            res@ == self@,
    {
        self.effects.as_slice()
    }

    /// Whether no effect is active.
    pub fn is_empty(&self) -> (res: bool)
        ensures
            res == (self@.len() == 0),
    {
        self.effects.len() == 0
    }
}

impl Default for StatusEffects {
    fn default() -> (res: Self)
        ensures
            res.wf(),
            res@ == Seq::<StatusEffect>::empty(),
    {
        StatusEffects::new()
    }
}

/// Potions that can be brewed and drunk.
#[derive(Debug, Clone, Copy, PartialEq, Eq, Hash, Structural)]
pub enum PotionType {
    /// A bottle of water.
    Water,
    /// Brewed with nether wart; the base of most potions.
    Awkward,
    /// Brewed with redstone.
    Mundane,
    /// Brewed with glowstone.
    Thick,
    NightVision,
    Invisibility,
    Leaping,
    FireResistance,
    Swiftness,
    Slowness,
    WaterBreathing,
    Healing,
    Harming,
    Poison,
    Regeneration,
    Strength,
    Weakness,
    Luck,
    SlowFalling,
}

/// The effect kind a potion grants.
pub open spec fn spec_potion_effect(p: PotionType) -> Option<StatusEffectType> {
    match p {
        PotionType::Water | PotionType::Awkward | PotionType::Mundane | PotionType::Thick => None,
        PotionType::NightVision => Some(StatusEffectType::NightVision),
        PotionType::Invisibility => Some(StatusEffectType::Invisibility),
        PotionType::Leaping => Some(StatusEffectType::JumpBoost),
        PotionType::FireResistance => Some(StatusEffectType::FireResistance),
        PotionType::Swiftness => Some(StatusEffectType::Speed),
        PotionType::Slowness => Some(StatusEffectType::Slowness),
        PotionType::WaterBreathing => Some(StatusEffectType::WaterBreathing),
        PotionType::Healing => Some(StatusEffectType::InstantHealth),
        PotionType::Harming => Some(StatusEffectType::InstantDamage),
        PotionType::Poison => Some(StatusEffectType::Poison),
        PotionType::Regeneration => Some(StatusEffectType::Regeneration),
        PotionType::Strength => Some(StatusEffectType::Strength),
        PotionType::Weakness => Some(StatusEffectType::Weakness),
        PotionType::Luck => Some(StatusEffectType::Luck),
        PotionType::SlowFalling => Some(StatusEffectType::SlowFalling),
    }
}

/// A potion's duration in ticks at level I, not extended.
pub open spec fn spec_base_duration(p: PotionType) -> u32 {
    match p {
        PotionType::Water | PotionType::Awkward | PotionType::Mundane | PotionType::Thick => 0,
        PotionType::Healing | PotionType::Harming => 0,
        PotionType::NightVision | PotionType::Invisibility | PotionType::FireResistance
        | PotionType::WaterBreathing | PotionType::Swiftness | PotionType::Leaping
        | PotionType::Strength => 3600,
        PotionType::Slowness | PotionType::Weakness | PotionType::SlowFalling => 1800,
        PotionType::Poison | PotionType::Regeneration => 900,
        PotionType::Luck => 6000,
    }
}

impl PotionType {
    /// The effect kind this potion grants, if any.
    pub fn effect(&self) -> (res: Option<StatusEffectType>)
        ensures
            res == spec_potion_effect(*self),
    {
        match self {
            PotionType::Water | PotionType::Awkward | PotionType::Mundane | PotionType::Thick => {
                None
            },
            PotionType::NightVision => Some(StatusEffectType::NightVision),
            PotionType::Invisibility => Some(StatusEffectType::Invisibility),
            PotionType::Leaping => Some(StatusEffectType::JumpBoost),
            PotionType::FireResistance => Some(StatusEffectType::FireResistance),
            PotionType::Swiftness => Some(StatusEffectType::Speed),
            PotionType::Slowness => Some(StatusEffectType::Slowness),
            PotionType::WaterBreathing => Some(StatusEffectType::WaterBreathing),
            PotionType::Healing => Some(StatusEffectType::InstantHealth),
            PotionType::Harming => Some(StatusEffectType::InstantDamage),
            PotionType::Poison => Some(StatusEffectType::Poison),
            PotionType::Regeneration => Some(StatusEffectType::Regeneration),
            PotionType::Strength => Some(StatusEffectType::Strength),
            PotionType::Weakness => Some(StatusEffectType::Weakness),
            PotionType::Luck => Some(StatusEffectType::Luck),
            PotionType::SlowFalling => Some(StatusEffectType::SlowFalling),
        }
    }

    /// Duration in ticks at level I, not extended.
    pub fn base_duration_ticks(&self) -> (res: u32)
        ensures
            res == spec_base_duration(*self),
    {
        match self {
            PotionType::Water | PotionType::Awkward | PotionType::Mundane | PotionType::Thick => 0,
            PotionType::Healing | PotionType::Harming => 0,
            PotionType::NightVision | PotionType::Invisibility | PotionType::FireResistance => 3600,
            PotionType::WaterBreathing => 3600,
            PotionType::Swiftness => 3600,
            PotionType::Slowness => 1800,
            PotionType::Leaping => 3600,
            PotionType::Poison => 900,
            PotionType::Regeneration => 900,
            PotionType::Strength => 3600,
            PotionType::Weakness => 1800,
            PotionType::Luck => 6000,
            PotionType::SlowFalling => 1800,
        }
    }

    /// The effect of drinking this potion: its kind, the amplifier (capped), and the base
    /// duration, 8/3 as long when extended. `None` for potions without an effect.
    pub fn create_effect(&self, amplifier: u8, extended: bool) -> (res: Option<StatusEffect>)
        ensures
            match spec_potion_effect(*self) {
                None => res.is_none(),
                Some(t) => res == Some(
                    StatusEffect::spec_new(
                        t,
                        amplifier,
                        if extended {
                            (spec_base_duration(*self) * 8 / 3) as u32
                        } else {
                            spec_base_duration(*self)
                        },
                    ),
                ),
            },
    {
        let effect_type = match self.effect() {
            Some(t) => t,
            None => return None,
        };
        let mut duration = self.base_duration_ticks();
        if extended && duration > 0 {
            duration = duration * 8 / 3;
        }
        Some(StatusEffect::new(effect_type, amplifier, duration))
    }
}

} // verus!
