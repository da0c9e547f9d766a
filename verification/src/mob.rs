//! Mob kinds: their canonical names, hostility and special abilities, and AI states.

use crate::biome::BiomeId;
use vstd::prelude::*;

verus! {

/// Kinds of mobs.
#[derive(Debug, Clone, Copy, PartialEq, Eq, Hash, PartialOrd, Ord, Structural)]
pub enum MobType {
    Pig,
    Cow,
    Sheep,
    Chicken,
    Villager,
    Zombie,
    Skeleton,
    Spider,
    Creeper,
    EnderDragon,
    Blaze,
    Ghast,
}

/// AI state of a mob.
#[derive(Debug, Clone, Copy, PartialEq, Eq, Structural)]
pub enum MobState {
    /// Standing still.
    Idle,
    /// Wandering in a direction.
    Wandering,
    /// Chasing a target.
    Chasing,
    /// Attacking a target.
    Attacking,
    /// Charging up to explode.
    Exploding,
}

/// The canonical lowercase name of a mob kind.
pub open spec fn mob_key(t: MobType) -> Seq<char> {
    match t {
        MobType::Pig => "pig"@,
        MobType::Cow => "cow"@,
        MobType::Sheep => "sheep"@,
        MobType::Chicken => "chicken"@,
        MobType::Villager => "villager"@,
        MobType::Zombie => "zombie"@,
        MobType::Skeleton => "skeleton"@,
        MobType::Spider => "spider"@,
        MobType::Creeper => "creeper"@,
        MobType::EnderDragon => "ender_dragon"@,
        MobType::Blaze => "blaze"@,
        MobType::Ghast => "ghast"@,
    }
}

/// The mob kind a lowercase key names: the canonical names, and "enderdragon" or "dragon"
/// for the ender dragon.
pub open spec fn key_mob(k: Seq<char>) -> Option<MobType> {
    if k == "pig"@ {
        Some(MobType::Pig)
    } else if k == "cow"@ {
        Some(MobType::Cow)
    } else if k == "sheep"@ {
        Some(MobType::Sheep)
    } else if k == "chicken"@ {
        Some(MobType::Chicken)
    } else if k == "villager"@ {
        Some(MobType::Villager)
    } else if k == "zombie"@ {
        Some(MobType::Zombie)
    } else if k == "skeleton"@ {
        Some(MobType::Skeleton)
    } else if k == "spider"@ {
        Some(MobType::Spider)
    } else if k == "creeper"@ {
        Some(MobType::Creeper)
    } else if k == "ender_dragon"@ || k == "enderdragon"@ || k == "dragon"@ {
        Some(MobType::EnderDragon)
    } else if k == "blaze"@ {
        Some(MobType::Blaze)
    } else if k == "ghast"@ {
        Some(MobType::Ghast)
    } else {
        None
    }
}

/// Unicode `White_Space` characters: tab through carriage return, space, next line,
/// no-break space, ogham space mark, the en quad through hair space, line and paragraph
/// separators, narrow no-break space, medium mathematical space and ideographic space.
pub open spec fn is_unicode_white_space(c: char) -> bool {
    let u = c as u32;
    (0x9 <= u <= 0xd) || u == 0x20 || u == 0x85 || u == 0xa0 || u == 0x1680 || (0x2000 <= u <= 0x200a)
        || u == 0x2028 || u == 0x2029 || u == 0x202f || u == 0x205f || u == 0x3000
}

/// Number of white-space characters at the start of a string.
pub open spec fn leading_white_space(s: Seq<char>) -> nat
    decreases s.len(),
{
    if s.len() > 0 && is_unicode_white_space(s[0]) {
        1 + leading_white_space(s.drop_first())
    } else {
        0
    }
}

/// Number of white-space characters at the end of a string.
pub open spec fn trailing_white_space(s: Seq<char>) -> nat
    decreases s.len(),
{
    if s.len() > 0 && is_unicode_white_space(s.last()) {
        1 + trailing_white_space(s.drop_last())
    } else {
        0
    }
}

/// A string without its leading and trailing white space.
pub open spec fn spec_trim(s: Seq<char>) -> Seq<char> {
    let lead = leading_white_space(s);
    if lead >= s.len() {
        Seq::empty()
    } else {
        s.subrange(lead as int, s.len() - trailing_white_space(s))
    }
}

/// The first character after the leading white space is not white space.
proof fn lemma_leading_stops(s: Seq<char>)
    requires
        leading_white_space(s) < s.len(),
    ensures
        !is_unicode_white_space(s[leading_white_space(s) as int]),
    decreases s.len(),
{
    if s.len() > 0 && is_unicode_white_space(s[0]) {
        lemma_leading_stops(s.drop_first());
    }
}

/// Trailing white space ends after any character that is not white space.
proof fn lemma_trailing_stops(s: Seq<char>, k: int)
    requires
        0 <= k < s.len(),
        !is_unicode_white_space(s[k]),
    ensures
        trailing_white_space(s) <= s.len() - 1 - k,
    decreases s.len(),
{
    if s.len() > 0 && is_unicode_white_space(s.last()) {
        lemma_trailing_stops(s.drop_last(), k);
    }
}

/// Every character of a trimmed string comes from the string, shifted by the leading white
/// space.
proof fn lemma_trim_index(s: Seq<char>, i: int)
    requires
        0 <= i < spec_trim(s).len(),
    ensures
        spec_trim(s)[i] == s[leading_white_space(s) + i],
        0 <= leading_white_space(s) + i < s.len(),
{
    let lead = leading_white_space(s);
    if lead < s.len() {
        lemma_leading_stops(s);
        lemma_trailing_stops(s, lead as int);
    }
}

/// Lowering an ASCII string by characters.
pub open spec fn ascii_lowered(s: Seq<char>) -> Seq<char> {
    s.map_values(|c: char| ascii_lower(c))
}

/// Lowering ASCII letters keeps white space and non-white space apart.
proof fn lemma_lower_white_space(c: char)
    requires
        is_ascii_char(c),
    ensures
        is_unicode_white_space(ascii_lower(c)) == is_unicode_white_space(c),
{
}

/// Lowering keeps the leading white space of an ASCII string.
proof fn lemma_leading_lowered(s: Seq<char>)
    requires
        forall|i: int| 0 <= i < s.len() ==> #[trigger] is_ascii_char(s[i]),
    ensures
        leading_white_space(ascii_lowered(s)) == leading_white_space(s),
    decreases s.len(),
{
    if s.len() > 0 {
        lemma_lower_white_space(s[0]);
        assert(ascii_lowered(s)[0] == ascii_lower(s[0]));
        assert(ascii_lowered(s).drop_first() =~= ascii_lowered(s.drop_first()));
        assert forall|i: int| 0 <= i < s.drop_first().len() implies #[trigger] is_ascii_char(s.drop_first()[i]) by {
            assert(s.drop_first()[i] == s[i + 1]);
        }
        lemma_leading_lowered(s.drop_first());
    }
}

/// Lowering keeps the trailing white space of an ASCII string.
proof fn lemma_trailing_lowered(s: Seq<char>)
    requires
        forall|i: int| 0 <= i < s.len() ==> #[trigger] is_ascii_char(s[i]),
    ensures
        trailing_white_space(ascii_lowered(s)) == trailing_white_space(s),
    decreases s.len(),
{
    if s.len() > 0 {
        lemma_lower_white_space(s.last());
        assert(ascii_lowered(s).last() == ascii_lower(s.last()));
        assert(ascii_lowered(s).drop_last() =~= ascii_lowered(s.drop_last()));
        assert forall|i: int| 0 <= i < s.drop_last().len() implies #[trigger] is_ascii_char(s.drop_last()[i]) by {
            assert(s.drop_last()[i] == s[i]);
        }
        lemma_trailing_lowered(s.drop_last());
    }
}

/// Trimming and lowering an ASCII string can be done in either order.
proof fn lemma_trim_lowered(s: Seq<char>)
    requires
        forall|i: int| 0 <= i < s.len() ==> #[trigger] is_ascii_char(s[i]),
    ensures
        ascii_lowered(spec_trim(s)) == spec_trim(ascii_lowered(s)),
{
    lemma_leading_lowered(s);
    lemma_trailing_lowered(s);
    let lead = leading_white_space(s);
    if lead < s.len() {
        lemma_leading_stops(s);
        lemma_trailing_stops(s, lead as int);
        assert(ascii_lowered(spec_trim(s)) =~= spec_trim(ascii_lowered(s)));
    } else {
        assert(ascii_lowered(spec_trim(s)) =~= spec_trim(ascii_lowered(s)));
    }
}

/// Parsing ignores case: two ASCII names that agree once their letters are lowered name
/// the same mob kind (or both none).
pub proof fn law_parse_ignores_case(a: Seq<char>, b: Seq<char>)
    requires
        forall|i: int| 0 <= i < a.len() ==> #[trigger] is_ascii_char(a[i]),
        forall|i: int| 0 <= i < b.len() ==> #[trigger] is_ascii_char(b[i]),
        ascii_lowered(a) == ascii_lowered(b),
    ensures
        key_mob(ascii_lowered(spec_trim(a))) == key_mob(ascii_lowered(spec_trim(b))),
{
    lemma_trim_lowered(a);
    lemma_trim_lowered(b);
}

/// What `str::to_lowercase` makes of a string.
pub uninterp spec fn lower_of(s: Seq<char>) -> Seq<char>;

/// A character of the ASCII range.
pub open spec fn is_ascii_char(c: char) -> bool {
    (c as u32) < 128
}

/// The ASCII lowercase of a character: 'A' to 'Z' become 'a' to 'z', every other character
/// stays.
pub open spec fn ascii_lower(c: char) -> char {
    if 65 <= (c as u32) <= 90 {
        ((c as u32) + 32) as char
    } else {
        c
    }
}

/// Calls `str::trim`: the string without leading and trailing white space, white space
/// being the characters of the Unicode `White_Space` property, as its documentation says.
#[verifier::external_body]
fn trim_str(s: &str) -> (res: &str)
    ensures
        res@ == spec_trim(s@),
{
    s.trim()
}

/// Calls `str::to_lowercase`: the Unicode lowercase of the string, a function of the string
/// alone; on a string of ASCII characters, each letter 'A' to 'Z' lowered and every other
/// character kept, one for one.
#[verifier::external_body]
fn lowercase(s: &str) -> (res: String)
    ensures
        res@ == lower_of(s@),
        (forall|i: int| 0 <= i < s@.len() ==> #[trigger] is_ascii_char(s@[i])) ==> res@ == ascii_lowered(s@),
{
    s.to_lowercase()
}

fn is_key(key: &String, name: &str) -> (res: bool)
    ensures
        res == (key@ == name@),
{
    *key == name.to_owned()
}

/// The mobs that spawn naturally in a biome, each with its spawn weight (whole numbers).
pub open spec fn biome_spawns(biome: BiomeId) -> Seq<(MobType, u32)> {
    match biome {
        BiomeId::Plains => seq![
            (MobType::Pig, 10u32),
            (MobType::Cow, 8u32),
            (MobType::Sheep, 12u32),
            (MobType::Chicken, 10u32),
            (MobType::Villager, 2u32),
        ],
        BiomeId::Forest | BiomeId::BirchForest => seq![
            (MobType::Pig, 8u32),
            (MobType::Cow, 4u32),
            (MobType::Chicken, 10u32),
        ],
        BiomeId::Hills => seq![(MobType::Sheep, 15u32), (MobType::Cow, 5u32)],
        BiomeId::Savanna => seq![(MobType::Cow, 6u32), (MobType::Chicken, 8u32)],
        BiomeId::RainForest => seq![(MobType::Pig, 6u32), (MobType::Chicken, 12u32)],
        BiomeId::Mountains => seq![(MobType::Sheep, 10u32)],
        _ => Seq::empty(),
    }
}

impl MobType {
    /// Mobs that spawn in a biome with their spawn weights; cold, ocean, desert and swamp
    /// biomes spawn none.
    pub fn for_biome(biome: BiomeId) -> (res: Vec<(MobType, u32)>)
        ensures
            res@ == biome_spawns(biome),
    {
        match biome {
            BiomeId::Plains => vec![
                (MobType::Pig, 10),
                (MobType::Cow, 8),
                (MobType::Sheep, 12),
                (MobType::Chicken, 10),
                (MobType::Villager, 2),
            ],
            BiomeId::Forest | BiomeId::BirchForest => vec![
                (MobType::Pig, 8),
                (MobType::Cow, 4),
                (MobType::Chicken, 10),
            ],
            BiomeId::Hills => vec![(MobType::Sheep, 15), (MobType::Cow, 5)],
            BiomeId::Savanna => vec![(MobType::Cow, 6), (MobType::Chicken, 8)],
            BiomeId::RainForest => vec![(MobType::Pig, 6), (MobType::Chicken, 12)],
            BiomeId::Mountains => vec![(MobType::Sheep, 10)],
            _ => Vec::new(),
        }
    }
}

pub open spec fn spec_is_hostile(t: MobType) -> bool {
    match t {
        MobType::Zombie | MobType::Skeleton | MobType::Spider | MobType::Creeper | MobType::EnderDragon
        | MobType::Blaze | MobType::Ghast => true,
        _ => false,
    }
}

impl MobType {
    /// The canonical lowercase name.
    pub fn as_str(self) -> (res: &'static str)
        ensures
            res@ == mob_key(self),
    {
        match self {
            MobType::Pig => "pig",
            MobType::Cow => "cow",
            MobType::Sheep => "sheep",
            MobType::Chicken => "chicken",
            MobType::Villager => "villager",
            MobType::Zombie => "zombie",
            MobType::Skeleton => "skeleton",
            MobType::Spider => "spider",
            MobType::Creeper => "creeper",
            MobType::EnderDragon => "ender_dragon",
            MobType::Blaze => "blaze",
            MobType::Ghast => "ghast",
        }
    }

    /// Parse a mob kind from a name, ignoring surrounding whitespace and case.
    pub fn parse(input: &str) -> (res: Option<Self>)
        ensures
            res == key_mob(lower_of(spec_trim(input@))),
            (forall|i: int| 0 <= i < input@.len() ==> #[trigger] is_ascii_char(input@[i])) ==> res == key_mob(
                ascii_lowered(spec_trim(input@)),
            ),
    {
        let trimmed = trim_str(input);
        proof {
            if forall|i: int| 0 <= i < input@.len() ==> #[trigger] is_ascii_char(input@[i]) {
                let lead = leading_white_space(input@);
                assert forall|i: int| 0 <= i < trimmed@.len() implies #[trigger] is_ascii_char(trimmed@[i]) by {
                    lemma_trim_index(input@, i);
                    assert(is_ascii_char(input@[lead + i]));
                }
            }
        }
        let key = lowercase(trimmed);
        if is_key(&key, "pig") {
            Some(MobType::Pig)
        } else if is_key(&key, "cow") {
            Some(MobType::Cow)
        } else if is_key(&key, "sheep") {
            Some(MobType::Sheep)
        } else if is_key(&key, "chicken") {
            Some(MobType::Chicken)
        } else if is_key(&key, "villager") {
            Some(MobType::Villager)
        } else if is_key(&key, "zombie") {
            Some(MobType::Zombie)
        } else if is_key(&key, "skeleton") {
            Some(MobType::Skeleton)
        } else if is_key(&key, "spider") {
            Some(MobType::Spider)
        } else if is_key(&key, "creeper") {
            Some(MobType::Creeper)
        } else if is_key(&key, "ender_dragon") || is_key(&key, "enderdragon") || is_key(&key, "dragon") {
            Some(MobType::EnderDragon)
        } else if is_key(&key, "blaze") {
            Some(MobType::Blaze)
        } else if is_key(&key, "ghast") {
            Some(MobType::Ghast)
        } else {
            None
        }
    }

    /// Whether the mob kind is hostile.
    pub fn is_hostile(&self) -> (res: bool)
        ensures
            res == spec_is_hostile(*self),
    {
        match self {
            MobType::Zombie | MobType::Skeleton | MobType::Spider | MobType::Creeper
            | MobType::EnderDragon | MobType::Blaze | MobType::Ghast => true,
            _ => false,
        }
    }

    /// Whether the mob explodes instead of attacking (creepers).
    pub fn explodes(&self) -> (res: bool)
        ensures
            res == (*self == MobType::Creeper),
    {
        match self {
            MobType::Creeper => true,
            _ => false,
        }
    }

    /// Whether the mob climbs walls (spiders).
    pub fn can_climb_walls(&self) -> (res: bool)
        ensures
            res == (*self == MobType::Spider),
    {
        match self {
            MobType::Spider => true,
            _ => false,
        }
    }

    /// Whether the mob is hostile at this time of day: spiders only at night, other kinds
    /// as `is_hostile` says.
    pub fn is_hostile_at_time(&self, is_night: bool) -> (res: bool)
        ensures
            res == if *self == MobType::Spider {
                is_night
            } else {
                spec_is_hostile(*self)
            },
    {
        match self {
            MobType::Spider => is_night,
            _ => self.is_hostile(),
        }
    }
}

} // verus!
