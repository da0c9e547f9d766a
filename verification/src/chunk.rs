//! Chunk storage: voxels, chunk coordinates and a keyed collection of loaded chunks.

use vstd::prelude::*;

verus! {

/// Block identifier in the block registry.
pub type BlockId = u16;

/// Packed per-block state bits.
pub type BlockState = u16;

/// Chunk width along X.
pub const CHUNK_SIZE_X: usize = 16;

/// Chunk height along Y.
pub const CHUNK_SIZE_Y: usize = 256;

/// Chunk depth along Z.
pub const CHUNK_SIZE_Z: usize = 16;

/// Number of voxels in one chunk.
pub const CHUNK_VOLUME: usize = 65536;

/// Lowest world Y that a chunk stores.
pub const WORLD_MIN_Y: i32 = 0;

/// Highest world Y that a chunk stores.
pub const WORLD_MAX_Y: i32 = 255;

pub const BLOCK_AIR: BlockId = 0;
pub const BLOCK_STONE: BlockId = 1;
pub const BLOCK_DIRT: BlockId = 2;
pub const BLOCK_GRASS: BlockId = 3;
pub const BLOCK_SAND: BlockId = 4;
pub const BLOCK_GRAVEL: BlockId = 5;
pub const BLOCK_WATER: BlockId = 6;
pub const BLOCK_ICE: BlockId = 7;
pub const BLOCK_SNOW: BlockId = 8;
pub const BLOCK_CLAY: BlockId = 9;
pub const BLOCK_BEDROCK: BlockId = 10;
pub const BLOCK_OAK_LOG: BlockId = 11;
pub const BLOCK_COAL_ORE: BlockId = 14;
pub const BLOCK_IRON_ORE: BlockId = 15;
pub const BLOCK_GOLD_ORE: BlockId = 16;
pub const BLOCK_DIAMOND_ORE: BlockId = 17;
pub const BLOCK_OAK_PLANKS: BlockId = 18;
pub const BLOCK_COBBLESTONE: BlockId = 19;
pub const BLOCK_OBSIDIAN: BlockId = 20;
pub const BLOCK_CRAFTING_TABLE: BlockId = 21;
pub const BLOCK_FURNACE: BlockId = 22;
pub const BLOCK_FURNACE_LIT: BlockId = 23;
pub const BLOCK_GLASS: BlockId = 25;
pub const BLOCK_ENCHANTING_TABLE: BlockId = 70;
pub const BLOCK_BREWING_STAND: BlockId = 71;
pub const BLOCK_BOOKSHELF: BlockId = 72;
pub const BLOCK_STONE_BRICKS: BlockId = 73;
pub const BLOCK_MOSS_BLOCK: BlockId = 75;
pub const BLOCK_DEEPSLATE: BlockId = 76;
pub const BLOCK_LAPIS_ORE: BlockId = 98;
pub const BLOCK_NETHER_WART_BLOCK: BlockId = 101;
pub const BLOCK_SOUL_SAND: BlockId = 102;
pub const BLOCK_SUGAR_CANE: BlockId = 104;
pub const BLOCK_BROWN_MUSHROOM: BlockId = 105;
pub const BLOCK_MAGMA_CREAM_ORE: BlockId = 106;
pub const BLOCK_GHAST_TEAR_ORE: BlockId = 107;
pub const BLOCK_GLISTERING_MELON_ORE: BlockId = 108;
pub const BLOCK_RABBIT_FOOT_ORE: BlockId = 109;
pub const BLOCK_PHANTOM_MEMBRANE_ORE: BlockId = 110;
pub const BLOCK_REDSTONE_DUST_ORE: BlockId = 111;
pub const BLOCK_GLOWSTONE_DUST_ORE: BlockId = 112;
pub const BLOCK_PUFFERFISH_ORE: BlockId = 113;
pub const BLOCK_GLOW_LICHEN: BlockId = 140;
pub const BLOCK_POINTED_DRIPSTONE: BlockId = 141;
pub const BLOCK_CAVE_VINES: BlockId = 142;
pub const BLOCK_MOSS_CARPET: BlockId = 143;
pub const BLOCK_SPORE_BLOSSOM: BlockId = 144;
pub const BLOCK_HANGING_ROOTS: BlockId = 145;
pub const BLOCK_SCULK_VEIN: BlockId = 146;
pub const BLOCK_END_PORTAL: BlockId = 150;
pub const BLOCK_RESPAWN_ANCHOR: BlockId = 151;
pub const BLOCK_WATER_FLOWING: BlockId = 152;
pub const BLOCK_LAVA: BlockId = 153;
pub const BLOCK_LAVA_FLOWING: BlockId = 154;
pub const BLOCK_FARMLAND: BlockId = 155;
pub const BLOCK_FARMLAND_WET: BlockId = 156;
pub const BLOCK_WHEAT: BlockId = 157;
pub const BLOCK_CARROTS: BlockId = 158;
pub const BLOCK_POTATOES: BlockId = 159;

/// Whether a block is a fluid (still or flowing water or lava).
pub open spec fn spec_is_fluid(block_id: BlockId) -> bool {
    block_id == BLOCK_WATER || block_id == BLOCK_WATER_FLOWING || block_id == BLOCK_LAVA
        || block_id == BLOCK_LAVA_FLOWING
}

/// Whether a block is a fluid (still or flowing water or lava).
pub fn is_fluid(block_id: BlockId) -> (res: bool)
    ensures
        res == spec_is_fluid(block_id),
{
    block_id == BLOCK_WATER || block_id == BLOCK_WATER_FLOWING || block_id == BLOCK_LAVA
        || block_id == BLOCK_LAVA_FLOWING
}

/// Whether a block is farmland (dry or hydrated).
pub open spec fn spec_is_farmland(block_id: BlockId) -> bool {
    block_id == BLOCK_FARMLAND || block_id == BLOCK_FARMLAND_WET
}

/// Whether a block is farmland (dry or hydrated).
pub fn is_farmland(block_id: BlockId) -> (res: bool)
    ensures
        res == spec_is_farmland(block_id),
{
    block_id == BLOCK_FARMLAND || block_id == BLOCK_FARMLAND_WET
}

/// Whether a block is a growing crop.
pub open spec fn spec_is_crop(block_id: BlockId) -> bool {
    block_id == BLOCK_WHEAT || block_id == BLOCK_CARROTS || block_id == BLOCK_POTATOES
}

/// Whether a block is a growing crop.
pub fn is_crop(block_id: BlockId) -> (res: bool)
    ensures
        res == spec_is_crop(block_id),
{
    block_id == BLOCK_WHEAT || block_id == BLOCK_CARROTS || block_id == BLOCK_POTATOES
}

/// One block cell: block id, packed state and the two light channels.
#[derive(Debug, Clone, Copy, PartialEq, Eq, Default)]
pub struct Voxel {
    pub id: BlockId,
    pub state: BlockState,
    pub light_sky: u8,
    pub light_block: u8,
}

/// The all-air voxel with no light.
pub open spec fn air_voxel() -> Voxel {
    Voxel { id: 0, state: 0, light_sky: 0, light_block: 0 }
}

/// Horizontal chunk coordinates.
#[derive(Debug, Clone, Copy, PartialEq, Eq, Hash, PartialOrd, Ord)]
pub struct ChunkPos {
    pub x: i32,
    pub z: i32,
}

impl ChunkPos {
    pub fn new(x: i32, z: i32) -> (res: Self)
        ensures
            res.x == x,
            res.z == z,
    {
        ChunkPos { x, z }
    }

    /// Exact equality of two chunk positions.
    pub fn same(&self, other: &ChunkPos) -> (res: bool)
        ensures
            res == (*self == *other),
    {
        self.x == other.x && self.z == other.z
    }
}

/// Position inside a chunk.
#[derive(Debug, Clone, Copy, PartialEq, Eq, Hash)]
pub struct LocalPos {
    pub x: usize,
    pub y: usize,
    pub z: usize,
}

/// Whether a local position lies inside the chunk volume.
pub open spec fn in_chunk(x: int, y: int, z: int) -> bool {
    0 <= x < CHUNK_SIZE_X && 0 <= y < CHUNK_SIZE_Y && 0 <= z < CHUNK_SIZE_Z
}

/// Linear voxel index: X fastest, then Z, then Y.
pub open spec fn voxel_index(x: int, y: int, z: int) -> int {
    y * 256 + z * 16 + x
}

pub proof fn lemma_voxel_index_bounds(x: int, y: int, z: int)
    requires
        in_chunk(x, y, z),
    ensures
        0 <= voxel_index(x, y, z) < CHUNK_VOLUME,
{
}

/// Every index of a chunk's voxels is the index of one in-chunk position.
pub proof fn lemma_index_coords(i: int)
    requires
        0 <= i < CHUNK_VOLUME,
    ensures
        in_chunk(i % 16, i / 256, (i / 16) % 16),
        voxel_index(i % 16, i / 256, (i / 16) % 16) == i,
{
    assert(i == (i / 256) * 256 + ((i / 16) % 16) * 16 + i % 16) by (nonlinear_arith)
        requires
            0 <= i,
    ;
    assert(i / 256 < 256) by (nonlinear_arith)
        requires
            0 <= i < CHUNK_VOLUME,
    ;
}

/// Two voxel arrays of a chunk that agree at every in-chunk position are equal.
pub proof fn lemma_cells_ext(a: Seq<Voxel>, b: Seq<Voxel>)
    requires
        a.len() == CHUNK_VOLUME,
        b.len() == CHUNK_VOLUME,
        forall|x: int, y: int, z: int| in_chunk(x, y, z) ==> a[voxel_index(x, y, z)] == #[trigger] b[voxel_index(x, y, z)],
    ensures
        a == b,
{
    assert forall|i: int| 0 <= i < CHUNK_VOLUME implies a[i] == b[i] by {
        lemma_index_coords(i);
        assert(a[voxel_index(i % 16, i / 256, (i / 16) % 16)] == b[voxel_index(i % 16, i / 256, (i / 16) % 16)]);
    }
    assert(a =~= b);
}

pub proof fn lemma_voxel_index_injective(x1: int, y1: int, z1: int, x2: int, y2: int, z2: int)
    requires
        in_chunk(x1, y1, z1),
        in_chunk(x2, y2, z2),
        voxel_index(x1, y1, z1) == voxel_index(x2, y2, z2),
    ensures
        x1 == x2 && y1 == y2 && z1 == z2,
{
}

/// A 16×256×16 column of voxels.
#[derive(Debug, Clone)]
pub struct Chunk {
    position: ChunkPos,
    voxels: Vec<Voxel>,
}

impl Chunk {
    /// Well-formedness: exactly one voxel per cell.
    pub open spec fn wf(&self) -> bool {
        self.cells().len() == CHUNK_VOLUME
    }

    pub closed spec fn spec_pos(&self) -> ChunkPos {
        self.position
    }

    /// The voxels in linear index order.
    pub closed spec fn cells(&self) -> Seq<Voxel> {
        self.voxels@
    }

    pub proof fn lemma_wf_len(&self)
        ensures
            self.wf() ==> self.cells().len() == CHUNK_VOLUME,
    {
    }

    /// The voxel at a local position.
    pub open spec fn at(&self, x: int, y: int, z: int) -> Voxel {
        self.cells()[voxel_index(x, y, z)]
    }

    /// A fresh all-air chunk at the given position.
    pub fn new(position: ChunkPos) -> (res: Chunk)
        ensures
            res.wf(),
            res.spec_pos() == position,
            res.cells() == Seq::new(CHUNK_VOLUME as nat, |i: int| air_voxel()),
    {
        let mut voxels: Vec<Voxel> = Vec::with_capacity(CHUNK_VOLUME);
        let mut i: usize = 0;
        while i < CHUNK_VOLUME
            invariant
                i <= CHUNK_VOLUME,
                voxels@.len() == i,
                forall|j: int| 0 <= j < i ==> voxels@[j] == air_voxel(),
            decreases CHUNK_VOLUME - i,
        {
            voxels.push(Voxel { id: 0, state: 0, light_sky: 0, light_block: 0 });
            i = i + 1;
        }
        let res = Chunk { position, voxels };
        assert(res.cells() =~= Seq::new(CHUNK_VOLUME as nat, |i: int| air_voxel()));
        res
    }

    /// The chunk's position.
    pub fn position(&self) -> (res: ChunkPos)
        ensures
            res == self.spec_pos(),
    {
        self.position
    }

    /// Read the voxel at a local position.
    pub fn voxel(&self, x: usize, y: usize, z: usize) -> (res: Voxel)
        requires
            self.wf(),
            in_chunk(x as int, y as int, z as int),
        ensures
            res == self.at(x as int, y as int, z as int),
    {
        self.voxels[y * 256 + z * 16 + x]
    }

    /// Write the voxel at a local position.
    pub fn set_voxel(&mut self, x: usize, y: usize, z: usize, voxel: Voxel)
        requires
            old(self).wf(),
            in_chunk(x as int, y as int, z as int),
        ensures
            final(self).wf(),
            final(self).spec_pos() == old(self).spec_pos(),
            final(self).cells() == old(self).cells().update(
                voxel_index(x as int, y as int, z as int),
                voxel,
            ),
    {
        let idx = y * 256 + z * 16 + x;
        self.voxels[idx] = voxel;
    }

    /// Copy of all voxels in linear index order.
    pub fn linear_voxels(&self) -> (res: Vec<Voxel>)
        ensures
            res@ == self.cells(),
    {
        let mut out: Vec<Voxel> = Vec::new();
        let mut i: usize = 0;
        while i < self.voxels.len()
            invariant
                i <= self.voxels@.len(),
                out@ == self.voxels@.subrange(0, i as int),
            decreases self.voxels@.len() - i,
        {
            out.push(self.voxels[i]);
            i = i + 1;
            assert(out@ =~= self.voxels@.subrange(0, i as int));
        }
        assert(self.voxels@.subrange(0, self.voxels@.len() as int) =~= self.voxels@);
        out
    }
}

/// World Y to chunk-local Y, if inside the stored height range.
pub fn world_y_to_local_y(world_y: i32) -> (res: Option<usize>)
    ensures
        res == (if WORLD_MIN_Y <= world_y <= WORLD_MAX_Y {
            Some((world_y - WORLD_MIN_Y) as usize)
        } else {
            None::<usize>
        }),
{
    if world_y < WORLD_MIN_Y || world_y > WORLD_MAX_Y {
        None
    } else {
        Some((world_y - WORLD_MIN_Y) as usize)
    }
}

/// Sum of a measure over the voxel arrays of stored chunks.
pub open spec fn sum_cells(es: Seq<(ChunkPos, Chunk)>, f: spec_fn(Seq<Voxel>) -> int) -> int
    decreases es.len(),
{
    if es.len() == 0 {
        0
    } else {
        sum_cells(es.drop_last(), f) + f(es.last().1.cells())
    }
}

proof fn lemma_sum_cells_nonneg(es: Seq<(ChunkPos, Chunk)>, f: spec_fn(Seq<Voxel>) -> int)
    requires
        forall|c: Seq<Voxel>| #[trigger] f(c) >= 0,
    ensures
        sum_cells(es, f) >= 0,
    decreases es.len(),
{
    if es.len() > 0 {
        lemma_sum_cells_nonneg(es.drop_last(), f);
        assert(f(es.last().1.cells()) >= 0);
    }
}

proof fn lemma_sum_cells_update(es: Seq<(ChunkPos, Chunk)>, f: spec_fn(Seq<Voxel>) -> int, i: int, e: (ChunkPos, Chunk))
    requires
        0 <= i < es.len(),
    ensures
        sum_cells(es.update(i, e), f) == sum_cells(es, f) - f(es[i].1.cells()) + f(e.1.cells()),
    decreases es.len(),
{
    if i == es.len() - 1 {
        assert(es.update(i, e).drop_last() =~= es.drop_last());
    } else {
        lemma_sum_cells_update(es.drop_last(), f, i, e);
        assert(es.update(i, e).drop_last() =~= es.drop_last().update(i, e));
    }
}

proof fn lemma_sum_cells_remove(es: Seq<(ChunkPos, Chunk)>, f: spec_fn(Seq<Voxel>) -> int, i: int)
    requires
        0 <= i < es.len(),
    ensures
        sum_cells(es.remove(i), f) == sum_cells(es, f) - f(es[i].1.cells()),
    decreases es.len(),
{
    if i == es.len() - 1 {
        assert(es.remove(i) =~= es.drop_last());
    } else {
        lemma_sum_cells_remove(es.drop_last(), f, i);
        assert(es.remove(i).drop_last() =~= es.drop_last().remove(i));
    }
}

proof fn lemma_sum_cells_push(es: Seq<(ChunkPos, Chunk)>, f: spec_fn(Seq<Voxel>) -> int, e: (ChunkPos, Chunk))
    ensures
        sum_cells(es.push(e), f) == sum_cells(es, f) + f(e.1.cells()),
{
    assert(es.push(e).drop_last() =~= es);
}

/// The loaded chunks, keyed by chunk position.
pub struct ChunkMap {
    entries: Vec<(ChunkPos, Chunk)>,
}

impl ChunkMap {
    /// Keys are distinct and every chunk is well formed.
    pub closed spec fn wf(&self) -> bool {
        &&& forall|i: int, j: int|
            0 <= i < j < self.entries@.len() ==> #[trigger] self.entries@[i].0
                != #[trigger] self.entries@[j].0
        &&& forall|i: int| 0 <= i < self.entries@.len() ==> (#[trigger] self.entries@[i]).1.wf()
    }

    /// The set of loaded chunk positions.
    pub closed spec fn keys(&self) -> Set<ChunkPos> {
        Set::new(|p: ChunkPos| exists|i: int| 0 <= i < self.entries@.len() && self.entries@[i].0 == p)
    }

    pub closed spec fn index_of(&self, p: ChunkPos) -> int {
        choose|i: int| 0 <= i < self.entries@.len() && self.entries@[i].0 == p
    }

    /// Voxels of the chunk stored under a key (meaningful when the key is loaded).
    pub closed spec fn cells_at(&self, p: ChunkPos) -> Seq<Voxel> {
        self.entries@[self.index_of(p)].1.cells()
    }

    /// Chunk position recorded inside the chunk stored under a key.
    pub closed spec fn chunk_pos_at(&self, p: ChunkPos) -> ChunkPos {
        self.entries@[self.index_of(p)].1.spec_pos()
    }

    /// Number of loaded chunks.
    pub closed spec fn spec_len(&self) -> nat {
        self.entries@.len()
    }

    /// Sum of a measure of the voxel arrays over all loaded chunks.
    pub closed spec fn total(&self, f: spec_fn(Seq<Voxel>) -> int) -> int {
        sum_cells(self.entries@, f)
    }

    pub proof fn lemma_total_nonneg(&self, f: spec_fn(Seq<Voxel>) -> int)
        requires
            forall|c: Seq<Voxel>| #[trigger] f(c) >= 0,
        ensures
            self.total(f) >= 0,
    {
        lemma_sum_cells_nonneg(self.entries@, f);
    }

    /// Voxel at a local position of a loaded chunk.
    pub open spec fn voxel_at(&self, p: ChunkPos, x: int, y: int, z: int) -> Voxel {
        self.cells_at(p)[voxel_index(x, y, z)]
    }

    proof fn lemma_index_of(&self, i: int)
        requires
            self.wf(),
            0 <= i < self.entries@.len(),
        ensures
            self.index_of(self.entries@[i].0) == i,
            self.keys().contains(self.entries@[i].0),
    {
        let p = self.entries@[i].0;
        assert(0 <= i < self.entries@.len() && self.entries@[i].0 == p);
        let k = self.index_of(p);
        if k != i {
            if k < i {
                assert(self.entries@[k].0 != self.entries@[i].0);
            } else {
                assert(self.entries@[i].0 != self.entries@[k].0);
            }
        }
    }

    /// Position of a loaded key in the storage order (used to enumerate loaded chunks).
    pub closed spec fn key_index(&self, p: ChunkPos) -> int {
        self.index_of(p)
    }

    pub proof fn lemma_key_index(&self, p: ChunkPos, q: ChunkPos)
        requires
            self.wf(),
            self.keys().contains(p),
            self.keys().contains(q),
        ensures
            0 <= self.key_index(p) < self.spec_len(),
            self.key_index(p) == self.key_index(q) ==> p == q,
    {
        let i = choose|i: int| 0 <= i < self.entries@.len() && self.entries@[i].0 == p;
        self.lemma_index_of(i);
        let j = choose|j: int| 0 <= j < self.entries@.len() && self.entries@[j].0 == q;
        self.lemma_index_of(j);
    }

    pub proof fn lemma_wf_cells(&self, p: ChunkPos)
        requires
            self.wf(),
            self.keys().contains(p),
        ensures
            self.cells_at(p).len() == CHUNK_VOLUME,
    {
        let i = self.index_of(p);
        assert(self.entries@[i].1.wf());
    }

    /// An empty collection.
    pub fn new() -> (res: ChunkMap)
        ensures
            res.wf(),
            res.keys() == Set::<ChunkPos>::empty(),
            res.spec_len() == 0,
    {
        let res = ChunkMap { entries: Vec::new() };
        assert(res.keys() =~= Set::<ChunkPos>::empty());
        res
    }

    /// Number of loaded chunks.
    pub fn len(&self) -> (res: usize)
        ensures
            res == self.spec_len(),
    {
        self.entries.len()
    }

    fn find(&self, pos: &ChunkPos) -> (res: Option<usize>)
        requires
            self.wf(),
        ensures
            match res {
                Some(i) => i < self.entries@.len() && self.entries@[i as int].0 == *pos
                    && self.index_of(*pos) == i && self.keys().contains(*pos),
                None => !self.keys().contains(*pos),
            },
    {
        let mut i: usize = 0;
        while i < self.entries.len()
            invariant
                self.wf(),
                i <= self.entries@.len(),
                forall|j: int| 0 <= j < i ==> self.entries@[j].0 != *pos,
            decreases self.entries@.len() - i,
        {
            if self.entries[i].0.same(pos) {
                proof {
                    self.lemma_index_of(i as int);
                }
                return Some(i);
            }
            i = i + 1;
        }
        None
    }

    /// Whether a chunk is loaded at the given position.
    pub fn contains(&self, pos: &ChunkPos) -> (res: bool)
        requires
            self.wf(),
        ensures
            res == self.keys().contains(*pos),
    {
        self.find(pos).is_some()
    }

    /// Insert a chunk under a key, replacing any chunk stored there.
    pub fn insert(&mut self, pos: ChunkPos, chunk: Chunk)
        requires
            old(self).wf(),
            chunk.wf(),
        ensures
            final(self).wf(),
            final(self).keys() == old(self).keys().insert(pos),
            final(self).cells_at(pos) == chunk.cells(),
            final(self).chunk_pos_at(pos) == chunk.spec_pos(),
            forall|q: ChunkPos|
                q != pos && old(self).keys().contains(q) ==> final(self).cells_at(q) == old(self).cells_at(q) && final(self).chunk_pos_at(q) == old(self).chunk_pos_at(q),
            forall|f: spec_fn(Seq<Voxel>) -> int|
                #[trigger] final(self).total(f) == old(self).total(f) + f(chunk.cells()) - (if old(
                    self,
                ).keys().contains(pos) {
                    f(old(self).cells_at(pos))
                } else {
                    0
                }),
    {
        let ghost old_map = *self;
        match self.find(&pos) {
            Some(i) => {
                self.entries[i] = (pos, chunk);
                proof {
                    assert forall|q: ChunkPos| #[trigger] self.keys().contains(q) <==> old_map.keys().insert(pos).contains(q) by {
                        if old_map.keys().contains(q) {
                            let k = choose|k: int| 0 <= k < old_map.entries@.len() && old_map.entries@[k].0 == q;
                            assert(self.entries@[k].0 == q);
                        }
                        if self.keys().contains(q) {
                            let k = choose|k: int| 0 <= k < self.entries@.len() && self.entries@[k].0 == q;
                            if k != i {
                                assert(old_map.entries@[k].0 == q);
                            }
                        }
                    }
                    assert(self.keys() =~= old_map.keys().insert(pos));
                    self.lemma_index_of(i as int);
                    old_map.lemma_index_of(i as int);
                    assert(self.entries@ =~= old_map.entries@.update(i as int, (pos, chunk)));
                    assert forall|f: spec_fn(Seq<Voxel>) -> int| #[trigger] self.total(f) == old_map.total(f)
                        + f(chunk.cells()) - f(old_map.cells_at(pos)) by {
                        lemma_sum_cells_update(old_map.entries@, f, i as int, (pos, chunk));
                    }
                    assert forall|q: ChunkPos|
                        q != pos && old_map.keys().contains(q) implies self.cells_at(q) == old_map.cells_at(q)
                        && self.chunk_pos_at(q) == old_map.chunk_pos_at(q) by {
                        let k = old_map.index_of(q);
                        old_map.lemma_index_of(k);
                        assert(self.entries@[k].0 == q);
                        self.lemma_index_of(k);
                    }
                }
            },
            None => {
                self.entries.push((pos, chunk));
                proof {
                    let n = old_map.entries@.len();
                    assert forall|q: ChunkPos| #[trigger] self.keys().contains(q) <==> old_map.keys().insert(pos).contains(q) by {
                        if old_map.keys().contains(q) {
                            let k = choose|k: int| 0 <= k < old_map.entries@.len() && old_map.entries@[k].0 == q;
                            assert(self.entries@[k].0 == q);
                        }
                        if q == pos {
                            assert(self.entries@[n as int].0 == q);
                        }
                        if self.keys().contains(q) {
                            let k = choose|k: int| 0 <= k < self.entries@.len() && self.entries@[k].0 == q;
                            if k != n {
                                assert(old_map.entries@[k].0 == q);
                            }
                        }
                    }
                    assert(self.keys() =~= old_map.keys().insert(pos));
                    assert forall|a: int, b: int|
                        0 <= a < b < self.entries@.len() implies #[trigger] self.entries@[a].0
                        != #[trigger] self.entries@[b].0 by {
                        if b == n {
                            if self.entries@[a].0 == pos {
                                assert(old_map.entries@[a].0 == pos);
                                assert(old_map.keys().contains(pos));
                            }
                        } else {
                            assert(old_map.entries@[a].0 != old_map.entries@[b].0);
                        }
                    }
                    self.lemma_index_of(n as int);
                    assert forall|f: spec_fn(Seq<Voxel>) -> int| #[trigger] self.total(f) == old_map.total(f)
                        + f(chunk.cells()) by {
                        lemma_sum_cells_push(old_map.entries@, f, (pos, chunk));
                    }
                    assert forall|q: ChunkPos|
                        q != pos && old_map.keys().contains(q) implies self.cells_at(q) == old_map.cells_at(q)
                        && self.chunk_pos_at(q) == old_map.chunk_pos_at(q) by {
                        let k = old_map.index_of(q);
                        old_map.lemma_index_of(k);
                        assert(self.entries@[k].0 == q);
                        self.lemma_index_of(k);
                    }
                }
            },
        }
    }

    /// The chunk stored under a key, if any.
    pub fn get(&self, pos: &ChunkPos) -> (res: Option<&Chunk>)
        requires
            self.wf(),
        ensures
            res.is_some() == self.keys().contains(*pos),
            res.is_some() ==> res.unwrap().wf() && res.unwrap().cells() == self.cells_at(*pos)
                && res.unwrap().spec_pos() == self.chunk_pos_at(*pos),
    {
        match self.find(pos) {
            Some(i) => Some(&self.entries[i].1),
            None => None,
        }
    }

    /// Read one voxel of a loaded chunk.
    pub fn voxel(&self, pos: &ChunkPos, x: usize, y: usize, z: usize) -> (res: Option<Voxel>)
        requires
            self.wf(),
            in_chunk(x as int, y as int, z as int),
        ensures
            res == (if self.keys().contains(*pos) {
                Some(self.voxel_at(*pos, x as int, y as int, z as int))
            } else {
                None::<Voxel>
            }),
    {
        match self.find(pos) {
            Some(i) => Some(self.entries[i].1.voxel(x, y, z)),
            None => None,
        }
    }

    /// Remove the chunk stored under a key and hand it out.
    pub fn take_chunk(&mut self, pos: &ChunkPos) -> (res: Option<Chunk>)
        requires
            old(self).wf(),
        ensures
            final(self).wf(),
            res.is_some() == old(self).keys().contains(*pos),
            final(self).keys() == old(self).keys().remove(*pos),
            res.is_some() ==> res.unwrap().wf() && res.unwrap().cells() == old(self).cells_at(*pos)
                && res.unwrap().spec_pos() == old(self).chunk_pos_at(*pos),
            forall|q: ChunkPos|
                q != *pos && old(self).keys().contains(q) ==> #[trigger] final(self).cells_at(q)
                    == old(self).cells_at(q) && final(self).chunk_pos_at(q) == old(self).chunk_pos_at(q),
            forall|f: spec_fn(Seq<Voxel>) -> int|
                #[trigger] final(self).total(f) == old(self).total(f) - (if res.is_some() {
                    f(old(self).cells_at(*pos))
                } else {
                    0
                }),
    {
        let ghost old_map = *self;
        match self.find(pos) {
            Some(i) => {
                let entry = self.entries.remove(i);
                proof {
                    let es = old_map.entries@;
                    assert(self.entries@ =~= es.remove(i as int));
                    old_map.lemma_index_of(i as int);
                    assert forall|q: ChunkPos| #[trigger] self.keys().contains(q) <==> old_map.keys().remove(*pos).contains(q) by {
                        if old_map.keys().contains(q) && q != *pos {
                            let k = choose|k: int| 0 <= k < es.len() && es[k].0 == q;
                            if k < i {
                                assert(self.entries@[k].0 == q);
                            } else {
                                assert(k != i);
                                assert(self.entries@[k - 1].0 == q);
                            }
                        }
                        if self.keys().contains(q) {
                            let k = choose|k: int| 0 <= k < self.entries@.len() && self.entries@[k].0 == q;
                            if k < i {
                                assert(es[k].0 == q);
                                assert(es[k].0 != es[i as int].0);
                            } else {
                                assert(es[k + 1].0 == q);
                                assert(es[i as int].0 != es[k + 1].0);
                            }
                        }
                    }
                    assert(self.keys() =~= old_map.keys().remove(*pos));
                    assert forall|a: int, b: int|
                        0 <= a < b < self.entries@.len() implies #[trigger] self.entries@[a].0
                        != #[trigger] self.entries@[b].0 by {
                        let a2 = if a < i { a } else { a + 1 };
                        let b2 = if b < i { b } else { b + 1 };
                        assert(self.entries@[a] == es[a2]);
                        assert(self.entries@[b] == es[b2]);
                    }
                    assert forall|a: int| 0 <= a < self.entries@.len() implies (#[trigger] self.entries@[a]).1.wf() by {
                        let a2 = if a < i { a } else { a + 1 };
                        assert(self.entries@[a] == es[a2]);
                    }
                    assert(es[i as int].1.wf());
                    assert forall|q: ChunkPos|
                        q != *pos && old_map.keys().contains(q) implies #[trigger] self.cells_at(q) == old_map.cells_at(q)
                        && self.chunk_pos_at(q) == old_map.chunk_pos_at(q) by {
                        let k = old_map.index_of(q);
                        old_map.lemma_index_of(k);
                        assert(k != i);
                        let k2 = if k < i { k } else { k - 1 };
                        assert(self.entries@[k2] == es[k]);
                        self.lemma_index_of(k2);
                    }
                    assert forall|f: spec_fn(Seq<Voxel>) -> int| #[trigger] self.total(f) == old_map.total(f)
                        - f(old_map.cells_at(*pos)) by {
                        lemma_sum_cells_remove(es, f, i as int);
                    }
                }
                Some(entry.1)
            },
            None => {
                proof {
                    assert(old_map.keys().remove(*pos) =~= old_map.keys());
                }
                None
            },
        }
    }

    /// Write one voxel of a loaded chunk; returns whether the chunk was loaded.
    pub fn set_voxel(&mut self, pos: &ChunkPos, x: usize, y: usize, z: usize, voxel: Voxel) -> (res:
        bool)
        requires
            old(self).wf(),
            in_chunk(x as int, y as int, z as int),
        ensures
            final(self).wf(),
            res == old(self).keys().contains(*pos),
            final(self).keys() == old(self).keys(),
            final(self).spec_len() == old(self).spec_len(),
            forall|q: ChunkPos|
                old(self).keys().contains(q) ==> #[trigger] final(self).chunk_pos_at(q) == old(self).chunk_pos_at(q),
            forall|q: ChunkPos|
                old(self).keys().contains(q) ==> #[trigger] final(self).key_index(q) == old(self).key_index(q),
            res ==> final(self).cells_at(*pos) == old(self).cells_at(*pos).update(
                voxel_index(x as int, y as int, z as int),
                voxel,
            ),
            forall|q: ChunkPos|
                q != *pos && old(self).keys().contains(q) ==> #[trigger] final(self).cells_at(q)
                    == old(self).cells_at(q),
            forall|f: spec_fn(Seq<Voxel>) -> int|
                #[trigger] final(self).total(f) == old(self).total(f) - (if res {
                    f(old(self).cells_at(*pos))
                } else {
                    0
                }) + (if res {
                    f(final(self).cells_at(*pos))
                } else {
                    0
                }),
    {
        let ghost old_map = *self;
        match self.find(pos) {
            Some(i) => {
                let mut entry = self.entries.remove(i);
                entry.1.set_voxel(x, y, z, voxel);
                self.entries.insert(i, entry);
                proof {
                    assert(self.entries@ =~= old_map.entries@.update(i as int, entry));
                    assert forall|f: spec_fn(Seq<Voxel>) -> int| #[trigger] self.total(f) == old_map.total(f)
                        - f(old_map.entries@[i as int].1.cells()) + f(entry.1.cells()) by {
                        lemma_sum_cells_update(old_map.entries@, f, i as int, entry);
                    }
                    self.lemma_index_of(i as int);
                    assert forall|q: ChunkPos| #[trigger] self.keys().contains(q) <==> old_map.keys().contains(q) by {
                        if old_map.keys().contains(q) {
                            let k = choose|k: int| 0 <= k < old_map.entries@.len() && old_map.entries@[k].0 == q;
                            assert(self.entries@[k].0 == q);
                        }
                        if self.keys().contains(q) {
                            let k = choose|k: int| 0 <= k < self.entries@.len() && self.entries@[k].0 == q;
                            assert(old_map.entries@[k].0 == q);
                        }
                    }
                    assert(self.keys() =~= old_map.keys());
                    assert forall|q: ChunkPos| old_map.keys().contains(q) implies #[trigger] self.index_of(q) == old_map.index_of(q) by {
                        let k = old_map.index_of(q);
                        old_map.lemma_index_of(k);
                        assert(self.entries@[k].0 == q);
                        self.lemma_index_of(k);
                    }
                }
                true
            },
            None => false,
        }
    }
}


/// A set of chunk positions without duplicates, in insertion order.
#[derive(Debug, Clone)]
pub struct ChunkPosSet {
    items: Vec<ChunkPos>,
}

impl ChunkPosSet {
    pub closed spec fn wf(&self) -> bool {
        self.items@.no_duplicates()
    }

    /// The positions held.
    pub closed spec fn view(&self) -> Set<ChunkPos> {
        self.items@.to_set()
    }

    /// An empty set.
    pub fn new() -> (res: Self)
        ensures
            res.wf(),
            res@ == Set::<ChunkPos>::empty(),
    {
        let res = ChunkPosSet { items: Vec::new() };
        assert(res@ =~= Set::<ChunkPos>::empty());
        res
    }

    /// Whether a position is held.
    pub fn contains(&self, pos: &ChunkPos) -> (res: bool)
        ensures
            res == self@.contains(*pos),
    {
        let mut i: usize = 0;
        while i < self.items.len()
            invariant
                i <= self.items@.len(),
                forall|j: int| 0 <= j < i ==> self.items@[j] != *pos,
            decreases self.items@.len() - i,
        {
            if self.items[i].same(pos) {
                assert(self.items@.contains(*pos));
                return true;
            }
            i = i + 1;
        }
        assert(!self.items@.contains(*pos));
        false
    }

    /// Add a position (no effect if already held).
    pub fn insert(&mut self, pos: ChunkPos)
        requires
            old(self).wf(),
        ensures
            final(self).wf(),
            final(self)@ == old(self)@.insert(pos),
    {
        if !self.contains(&pos) {
            let ghost old_items = self.items@;
            self.items.push(pos);
            proof {
                assert(self.items@ == old_items.push(pos));
                assert forall|i: int, j: int|
                    0 <= i < self.items@.len() && 0 <= j < self.items@.len() && i != j implies
                    self.items@[i] != self.items@[j] by {
                    if j == old_items.len() {
                        assert(old_items[i] == self.items@[i]);
                    } else if i == old_items.len() {
                        assert(old_items[j] == self.items@[j]);
                    } else {
                        assert(old_items[i] == self.items@[i]);
                        assert(old_items[j] == self.items@[j]);
                    }
                }
                assert(self.items@.to_set() =~= old_items.to_set().insert(pos)) by {
                    assert forall|q: ChunkPos| self.items@.contains(q) <==> (old_items.contains(q) || q == pos) by {
                        if self.items@.contains(q) {
                            let k = choose|k: int| 0 <= k < self.items@.len() && self.items@[k] == q;
                            if k < old_items.len() {
                                assert(old_items[k] == q);
                            }
                        }
                        if old_items.contains(q) {
                            let k = choose|k: int| 0 <= k < old_items.len() && old_items[k] == q;
                            assert(self.items@[k] == q);
                        }
                        if q == pos {
                            assert(self.items@[old_items.len() as int] == q);
                        }
                    }
                }
            }
        }
    }

    /// Number of positions held.
    pub fn len(&self) -> (res: usize)
        requires
            self.wf(),
        ensures
            res == self@.len(),
    {
        proof {
            self.items@.unique_seq_to_set();
        }
        self.items.len()
    }

    /// Whether no position is held.
    pub fn is_empty(&self) -> (res: bool)
        ensures
            res == (self@ == Set::<ChunkPos>::empty()),
    {
        if self.items.len() == 0 {
            assert(self@ =~= Set::<ChunkPos>::empty());
            true
        } else {
            assert(self@.contains(self.items@[0]));
            false
        }
    }

    /// The positions as a vector, in insertion order.
    pub fn to_vec(&self) -> (res: Vec<ChunkPos>)
        ensures
            res@.to_set() == self@,
            self.wf() ==> res@.no_duplicates(),
    {
        let res = self.items.clone();
        assert(res@ =~= self.items@);
        res
    }
}

} // verus!
