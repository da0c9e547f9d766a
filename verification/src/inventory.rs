//! Item stacks and the 36-slot inventory: merging, splitting, adding and removing items.

use vstd::prelude::*;

verus! {

/// Item identifier referencing the item registry.
pub type ItemId = u16;

/// Maximum stack size for most items.
pub const DEFAULT_STACK_SIZE: u8 = 64;

/// Number of slots in a player inventory.
pub const INVENTORY_SIZE: usize = 36;

/// A stack of items in one slot.
#[derive(Debug, Clone, PartialEq, Eq)]
pub struct ItemStack {
    /// Item type identifier.
    pub item_id: ItemId,
    /// Number of items in this stack.
    pub count: u8,
    /// Optional item metadata (damage, enchantments, ...).
    pub metadata: Option<Vec<u8>>,
}

/// Metadata bytes of a stack.
pub open spec fn meta_of(m: Option<Vec<u8>>) -> Option<Seq<u8>> {
    match m {
        Some(v) => Some(v@),
        None => None,
    }
}

/// Two stacks merge when they hold the same item with the same metadata.
pub open spec fn spec_can_merge(a: ItemStack, b: ItemStack) -> bool {
    a.item_id == b.item_id && meta_of(a.metadata) == meta_of(b.metadata)
}

/// Room left in a stack below the stack limit.
pub open spec fn spec_room(count: u8) -> int {
    if count >= 64 {
        0
    } else {
        64 - count
    }
}

fn bytes_equal(a: &Vec<u8>, b: &Vec<u8>) -> (res: bool)
    ensures
        res == (a@ == b@),
{
    if a.len() != b.len() {
        return false;
    }
    let mut i: usize = 0;
    while i < a.len()
        invariant
            a@.len() == b@.len(),
            i <= a@.len(),
            forall|j: int| 0 <= j < i ==> a@[j] == b@[j],
        decreases a@.len() - i,
    {
        if a[i] != b[i] {
            return false;
        }
        i = i + 1;
    }
    assert(a@ =~= b@);
    true
}

fn copy_bytes(a: &Vec<u8>) -> (res: Vec<u8>)
    ensures
        res@ == a@,
{
    let mut out: Vec<u8> = Vec::new();
    let mut i: usize = 0;
    while i < a.len()
        invariant
            i <= a@.len(),
            out@ == a@.subrange(0, i as int),
        decreases a@.len() - i,
    {
        out.push(a[i]);
        i = i + 1;
        assert(out@ =~= a@.subrange(0, i as int));
    }
    assert(a@.subrange(0, a@.len() as int) =~= a@);
    out
}

fn copy_metadata(m: &Option<Vec<u8>>) -> (res: Option<Vec<u8>>)
    ensures
        meta_of(res) == meta_of(*m),
{
    match m {
        Some(v) => Some(copy_bytes(v)),
        None => None,
    }
}

impl ItemStack {
    /// A stack without metadata.
    pub fn new(item_id: ItemId, count: u8) -> (res: Self)
        ensures
            res.item_id == item_id,
            res.count == count,
            res.metadata.is_none(),
    {
        ItemStack { item_id, count, metadata: None }
    }

    /// A stack with metadata.
    pub fn with_metadata(item_id: ItemId, count: u8, metadata: Vec<u8>) -> (res: Self)
        ensures
            res.item_id == item_id,
            res.count == count,
            meta_of(res.metadata) == Some(metadata@),
    {
        ItemStack { item_id, count, metadata: Some(metadata) }
    }

    /// Whether this stack can merge with another: same item and same metadata.
    pub fn can_merge(&self, other: &ItemStack) -> (res: bool)
        ensures
            res == spec_can_merge(*self, *other),
    {
        if self.item_id != other.item_id {
            return false;
        }
        match (&self.metadata, &other.metadata) {
            (Some(a), Some(b)) => bytes_equal(a, b),
            (None, None) => true,
            _ => false,
        }
    }

    /// Maximum stack size of this item.
    pub fn max_stack_size(&self) -> (res: u8)
        ensures
            res == DEFAULT_STACK_SIZE,
    {
        DEFAULT_STACK_SIZE
    }

    /// Whether the stack is at (or above) the stack limit.
    pub fn is_full(&self) -> (res: bool)
        ensures
            res == (self.count >= 64),
    {
        self.count >= self.max_stack_size()
    }

    /// Room left below the stack limit.
    pub fn remaining_space(&self) -> (res: u8)
        ensures
            res == spec_room(self.count),
    {
        self.max_stack_size().saturating_sub(self.count)
    }

    /// Add up to `amount` items (as many as fit); returns how many did not fit.
    pub fn add(&mut self, amount: u8) -> (rest: u8)
        ensures
            final(self).item_id == old(self).item_id,
            meta_of(final(self).metadata) == meta_of(old(self).metadata),
            final(self).count == old(self).count + (amount - rest),
            rest == amount - (if amount < spec_room(old(self).count) {
                amount as int
            } else {
                spec_room(old(self).count)
            }),
    {
        let space = self.remaining_space();
        let added = if amount < space {
            amount
        } else {
            space
        };
        self.count = self.count + added;
        amount - added
    }

    /// Remove up to `amount` items; returns how many were removed.
    pub fn remove(&mut self, amount: u8) -> (removed: u8)
        ensures
            final(self).item_id == old(self).item_id,
            meta_of(final(self).metadata) == meta_of(old(self).metadata),
            removed == (if amount < old(self).count {
                amount
            } else {
                old(self).count
            }),
            final(self).count == old(self).count - removed,
    {
        let removed = if amount < self.count {
            amount
        } else {
            self.count
        };
        self.count = self.count - removed;
        removed
    }

    /// Split off `amount` items into a new stack with the same item and metadata; `None`
    /// (and no change) when `amount` is 0 or more than the stack holds.
    pub fn split(&mut self, amount: u8) -> (res: Option<ItemStack>)
        ensures
            final(self).item_id == old(self).item_id,
            meta_of(final(self).metadata) == meta_of(old(self).metadata),
            (amount == 0 || amount > old(self).count) ==> res.is_none() && final(self).count == old(
                self,
            ).count,
            !(amount == 0 || amount > old(self).count) ==> res.is_some() && final(self).count
                == old(self).count - amount && res.unwrap().count == amount && res.unwrap().item_id
                == old(self).item_id && meta_of(res.unwrap().metadata) == meta_of(
                old(self).metadata,
            ),
    {
        if amount == 0 || amount > self.count {
            return None;
        }
        self.count = self.count - amount;
        Some(ItemStack { item_id: self.item_id, count: amount, metadata: copy_metadata(&self.metadata) })
    }
}

/// Items of `id` held by one slot.
pub open spec fn slot_count(slot: Option<ItemStack>, id: ItemId) -> int {
    match slot {
        Some(s) => if s.item_id == id {
            s.count as int
        } else {
            0
        },
        None => 0,
    }
}

/// Total items of `id` held by a run of slots.
pub open spec fn total_count(slots: Seq<Option<ItemStack>>, id: ItemId) -> int
    decreases slots.len(),
{
    if slots.len() == 0 {
        0
    } else {
        total_count(slots.drop_last(), id) + slot_count(slots.last(), id)
    }
}

/// Number of empty slots in a run of slots.
pub open spec fn empty_count(slots: Seq<Option<ItemStack>>) -> int
    decreases slots.len(),
{
    if slots.len() == 0 {
        0
    } else {
        empty_count(slots.drop_last()) + if slots.last().is_none() {
            1int
        } else {
            0int
        }
    }
}

pub proof fn lemma_total_count_bounds(slots: Seq<Option<ItemStack>>, id: ItemId)
    ensures
        0 <= total_count(slots, id) <= 255 * slots.len(),
    decreases slots.len(),
{
    if slots.len() > 0 {
        lemma_total_count_bounds(slots.drop_last(), id);
    }
}

pub proof fn lemma_total_count_zero(slots: Seq<Option<ItemStack>>, id: ItemId)
    requires
        forall|j: int| 0 <= j < slots.len() ==> slot_count(#[trigger] slots[j], id) == 0,
    ensures
        total_count(slots, id) == 0,
    decreases slots.len(),
{
    if slots.len() > 0 {
        lemma_total_count_zero(slots.drop_last(), id);
    }
}

pub proof fn lemma_total_count_take(slots: Seq<Option<ItemStack>>, id: ItemId, i: int)
    requires
        0 <= i < slots.len(),
    ensures
        total_count(slots.take(i + 1), id) == total_count(slots.take(i), id) + slot_count(
            slots[i],
            id,
        ),
{
    assert(slots.take(i + 1).drop_last() =~= slots.take(i));
}

pub proof fn lemma_total_count_update(
    slots: Seq<Option<ItemStack>>,
    id: ItemId,
    i: int,
    v: Option<ItemStack>,
)
    requires
        0 <= i < slots.len(),
    ensures
        total_count(slots.update(i, v), id) == total_count(slots, id) - slot_count(slots[i], id)
            + slot_count(v, id),
    decreases slots.len(),
{
    if i == slots.len() - 1 {
        assert(slots.update(i, v).drop_last() =~= slots.drop_last());
    } else {
        lemma_total_count_update(slots.drop_last(), id, i, v);
        assert(slots.update(i, v).drop_last() =~= slots.drop_last().update(i, v));
    }
}

pub proof fn lemma_empty_count_take(slots: Seq<Option<ItemStack>>, i: int)
    requires
        0 <= i < slots.len(),
    ensures
        empty_count(slots.take(i + 1)) == empty_count(slots.take(i)) + if slots[i].is_none() {
            1int
        } else {
            0int
        },
{
    assert(slots.take(i + 1).drop_last() =~= slots.take(i));
}

pub proof fn lemma_empty_count_update(slots: Seq<Option<ItemStack>>, i: int, v: Option<ItemStack>)
    requires
        0 <= i < slots.len(),
    ensures
        empty_count(slots.update(i, v)) == empty_count(slots) - (if slots[i].is_none() {
            1int
        } else {
            0int
        }) + (if v.is_none() {
            1int
        } else {
            0int
        }),
    decreases slots.len(),
{
    if i == slots.len() - 1 {
        assert(slots.update(i, v).drop_last() =~= slots.drop_last());
    } else {
        lemma_empty_count_update(slots.drop_last(), i, v);
        assert(slots.update(i, v).drop_last() =~= slots.drop_last().update(i, v));
    }
}

/// A player or container inventory with 36 slots.
#[derive(Debug, Clone)]
pub struct Inventory {
    slots: Vec<Option<ItemStack>>,
}

/// What a slot holds, as plain values: item, count and metadata bytes of its stack.
pub open spec fn slot_view(s: Option<ItemStack>) -> Option<(ItemId, u8, Option<Seq<u8>>)> {
    match s {
        Some(st) => Some((st.item_id, st.count, meta_of(st.metadata))),
        None => None,
    }
}

/// The slots of an inventory as plain values.
pub open spec fn slots_view(s: Seq<Option<ItemStack>>) -> Seq<Option<(ItemId, u8, Option<Seq<u8>>)>> {
    s.map_values(|x: Option<ItemStack>| slot_view(x))
}

/// The merge pass of adding `count` items of `id` with metadata `meta`, from slot `i` on:
/// each stack of the same item and metadata below the stack limit is topped up in slot
/// order. `None` when the items ran out at a stack (the pass stops there), otherwise the
/// count still to place.
pub open spec fn merge_from(
    slots: Seq<Option<(ItemId, u8, Option<Seq<u8>>)>>,
    id: ItemId,
    meta: Option<Seq<u8>>,
    count: int,
    i: int,
) -> (Seq<Option<(ItemId, u8, Option<Seq<u8>>)>>, Option<int>)
    decreases slots.len() - i,
{
    if i < 0 || i >= slots.len() {
        (slots, Some(count))
    } else {
        match slots[i] {
            Some(e) => if e.0 == id && e.2 == meta && e.1 < 64 {
                let added = if count < 64 - e.1 { count } else { 64 - e.1 };
                let s2 = slots.update(i, Some((e.0, (e.1 + added) as u8, e.2)));
                if count - added == 0 {
                    (s2, None)
                } else {
                    merge_from(s2, id, meta, count - added, i + 1)
                }
            } else {
                merge_from(slots, id, meta, count, i + 1)
            },
            None => merge_from(slots, id, meta, count, i + 1),
        }
    }
}

/// The first empty slot at or after `i`.
pub open spec fn first_empty(slots: Seq<Option<(ItemId, u8, Option<Seq<u8>>)>>, i: int) -> Option<int>
    decreases slots.len() - i,
{
    if i < 0 || i >= slots.len() {
        None
    } else if slots[i] is None {
        Some(i)
    } else {
        first_empty(slots, i + 1)
    }
}

/// The slots after adding `stack`, and the count that did not fit: the merge pass, then
/// the rest as one stack in the first empty slot.
pub open spec fn add_model(slots: Seq<Option<(ItemId, u8, Option<Seq<u8>>)>>, stack: ItemStack) -> (
    Seq<Option<(ItemId, u8, Option<Seq<u8>>)>>,
    Option<int>,
) {
    let meta = meta_of(stack.metadata);
    match merge_from(slots, stack.item_id, meta, stack.count as int, 0) {
        (s, None) => (s, None),
        (s, Some(rest)) => match first_empty(s, 0) {
            Some(j) => (s.update(j, Some((stack.item_id, rest as u8, meta))), None),
            None => (s, Some(rest)),
        },
    }
}

/// The slots after removing up to `remaining` items of `id` from slot `i` on: each stack of
/// that item gives up what it has, up to what is still to remove, and a stack left empty
/// leaves its slot empty.
pub open spec fn remove_from(
    slots: Seq<Option<(ItemId, u8, Option<Seq<u8>>)>>,
    id: ItemId,
    remaining: int,
    i: int,
) -> Seq<Option<(ItemId, u8, Option<Seq<u8>>)>>
    decreases slots.len() - i,
{
    if i < 0 || i >= slots.len() || remaining <= 0 {
        slots
    } else {
        match slots[i] {
            Some(e) => if e.0 == id {
                let taken = if remaining < e.1 { remaining } else { e.1 as int };
                let s2 = slots.update(
                    i,
                    if e.1 - taken == 0 { None } else { Some((e.0, (e.1 - taken) as u8, e.2)) },
                );
                remove_from(s2, id, remaining - taken, i + 1)
            } else {
                remove_from(slots, id, remaining, i + 1)
            },
            None => remove_from(slots, id, remaining, i + 1),
        }
    }
}

impl Inventory {
    /// The slot contents, in slot order.
    pub closed spec fn view(&self) -> Seq<Option<ItemStack>> {
        self.slots@
    }

    /// Exactly 36 slots.
    pub open spec fn wf(&self) -> bool {
        self@.len() == INVENTORY_SIZE
    }

    /// Total items of `id` in the inventory.
    pub open spec fn count_of(&self, id: ItemId) -> int {
        total_count(self@, id)
    }

    /// An empty inventory.
    pub fn new() -> (res: Self)
        ensures
            res.wf(),
            forall|i: int| 0 <= i < INVENTORY_SIZE ==> #[trigger] res@[i].is_none(),
    {
        let mut slots: Vec<Option<ItemStack>> = Vec::new();
        let mut i: usize = 0;
        while i < INVENTORY_SIZE
            invariant
                i <= INVENTORY_SIZE,
                slots@.len() == i,
                forall|j: int| 0 <= j < i ==> #[trigger] slots@[j].is_none(),
            decreases INVENTORY_SIZE - i,
        {
            slots.push(None);
            i = i + 1;
        }
        Inventory { slots }
    }

    /// The stack in a slot (`None` for an empty or out-of-range slot).
    pub fn get(&self, slot: usize) -> (res: Option<&ItemStack>)
        requires
            self.wf(),
        ensures
            slot >= INVENTORY_SIZE ==> res.is_none(),
            slot < INVENTORY_SIZE ==> res == match self@[slot as int] {
                Some(s) => Some(&s),
                None => None::<&ItemStack>,
            },
    {
        if slot >= INVENTORY_SIZE {
            return None;
        }
        self.slots[slot].as_ref()
    }

    /// Mutable access to the stack in a slot (`None` for an empty or out-of-range slot).
    pub fn get_mut(&mut self, slot: usize) -> (res: Option<&mut ItemStack>)
        requires
            old(self).wf(),
        ensures
            slot >= INVENTORY_SIZE ==> res.is_none() && *final(self) == *old(self),
            slot < INVENTORY_SIZE ==> match old(self)@[slot as int] {
                Some(s) => res.is_some() && *res.unwrap() == s && final(self)@ == old(
                    self,
                )@.update(slot as int, Some(*final(res.unwrap()))),
                None => res.is_none() && final(self)@ == old(self)@,
            },
    {
        if slot >= INVENTORY_SIZE {
            return None;
        }
        self.slots[slot].as_mut()
    }

    /// Put a stack (or nothing) into a slot; false (and no change) for an out-of-range slot.
    pub fn set(&mut self, slot: usize, stack: Option<ItemStack>) -> (res: bool)
        requires
            old(self).wf(),
        ensures
            final(self).wf(),
            res == (slot < INVENTORY_SIZE),
            res ==> final(self)@ == old(self)@.update(slot as int, stack),
            !res ==> final(self)@ == old(self)@,
    {
        if slot >= INVENTORY_SIZE {
            return false;
        }
        self.slots[slot] = stack;
        true
    }

    /// Take the stack out of a slot, leaving it empty.
    pub fn take(&mut self, slot: usize) -> (res: Option<ItemStack>)
        requires
            old(self).wf(),
        ensures
            final(self).wf(),
            slot >= INVENTORY_SIZE ==> res.is_none() && final(self)@ == old(self)@,
            slot < INVENTORY_SIZE ==> res == old(self)@[slot as int] && final(self)@ == old(
                self,
            )@.update(slot as int, None),
    {
        if slot >= INVENTORY_SIZE {
            return None;
        }
        let mut taken: Option<ItemStack> = None;
        std::mem::swap(&mut taken, &mut self.slots[slot]);
        taken
    }

    /// Add a stack: first top up mergeable stacks in slot order, then put the rest in the
    /// first empty slot. Returns what did not fit. Items are conserved: the inventory gains
    /// exactly the items of `stack` minus those returned, and other items are untouched.
    /// Something is returned only when every slot is occupied and every stack that could
    /// take the items is full.
    pub fn add_item(&mut self, stack: ItemStack) -> (rest: Option<ItemStack>)
        requires
            old(self).wf(),
        ensures
            final(self).wf(),
            forall|id: ItemId|
                id != stack.item_id ==> #[trigger] final(self).count_of(id) == old(self).count_of(id),
            final(self).count_of(stack.item_id) + (match rest {
                Some(r) => r.count as int,
                None => 0,
            }) == old(self).count_of(stack.item_id) + stack.count,
            rest.is_some() ==> rest.unwrap().item_id == stack.item_id && meta_of(
                rest.unwrap().metadata,
            ) == meta_of(stack.metadata) && rest.unwrap().count <= stack.count && (stack.count > 0
                ==> rest.unwrap().count > 0),
            rest.is_some() ==> forall|i: int|
                0 <= i < INVENTORY_SIZE ==> #[trigger] final(self)@[i].is_some() && (
                spec_can_merge(final(self)@[i].unwrap(), stack) ==> final(self)@[i].unwrap().count
                    >= 64),
            slots_view(final(self)@) == add_model(slots_view(old(self)@), stack).0,
            match add_model(slots_view(old(self)@), stack).1 {
                Some(c) => rest is Some && rest.unwrap().count == c,
                None => rest is None,
            },
    {
        let ghost orig = stack;
        let mut pending = stack;
        let ghost id = pending.item_id;
        let mut i: usize = 0;
        while i < INVENTORY_SIZE
            invariant
                self.wf(),
                i <= INVENTORY_SIZE,
                pending.item_id == id,
                id == orig.item_id,
                orig == stack,
                meta_of(pending.metadata) == meta_of(orig.metadata),
                pending.count <= orig.count,
                orig.count > 0 ==> pending.count > 0,
                forall|other: ItemId|
                    other != id ==> #[trigger] self.count_of(other) == old(self).count_of(other),
                total_count(self@, id) + pending.count == total_count(old(self)@, id) + orig.count,
                forall|j: int|
                    0 <= j < i ==> (#[trigger] self@[j]).is_some() ==> (spec_can_merge(
                        self@[j].unwrap(),
                        orig,
                    ) ==> self@[j].unwrap().count >= 64),
                forall|j: int| 0 <= j < i ==> (#[trigger] self@[j]).is_some() == old(self)@[j].is_some(),
                forall|j: int| i <= j < INVENTORY_SIZE ==> #[trigger] self@[j] == old(self)@[j],
                merge_from(slots_view(self@), id, meta_of(orig.metadata), pending.count as int, i as int)
                    == merge_from(slots_view(old(self)@), id, meta_of(orig.metadata), orig.count as int, 0),
            decreases INVENTORY_SIZE - i,
        {
            let ghost view_before = slots_view(self@);
            let merge = match &self.slots[i] {
                Some(existing) => existing.can_merge(&pending) && !existing.is_full(),
                None => false,
            };
            if merge {
                let ghost before_inv: Inventory = *self;
                let ghost before = self@;
                let mut existing = self.slots[i].take().unwrap();
                let remainder = existing.add(pending.count);
                let ghost e = existing;
                self.slots[i] = Some(existing);
                proof {
                    assert(self@ == before.update(i as int, Some(e)));
                    assert(slots_view(self@) =~= view_before.update(i as int, slot_view(Some(e))));
                    lemma_total_count_update(before, id, i as int, Some(e));
                    assert forall|other: ItemId| other != id implies #[trigger] self.count_of(other) == old(self).count_of(other) by {
                        lemma_total_count_update(before, other, i as int, Some(e));
                        assert(before_inv.count_of(other) == old(self).count_of(other));
                    }
                }
                if remainder == 0 {
                    return None;
                }
                pending.count = remainder;
            }
            i = i + 1;
        }
        let ghost ms = slots_view(self@);
        assert(merge_from(ms, id, meta_of(orig.metadata), pending.count as int, i as int) == (ms, Some(pending.count as int)));
        let mut i: usize = 0;
        while i < INVENTORY_SIZE
            invariant
                self.wf(),
                i <= INVENTORY_SIZE,
                pending.item_id == id,
                id == orig.item_id,
                orig == stack,
                meta_of(pending.metadata) == meta_of(orig.metadata),
                pending.count <= orig.count,
                orig.count > 0 ==> pending.count > 0,
                forall|j: int| 0 <= j < i ==> #[trigger] self@[j].is_some(),
                forall|other: ItemId|
                    other != id ==> #[trigger] self.count_of(other) == old(self).count_of(other),
                total_count(self@, id) + pending.count == total_count(old(self)@, id) + orig.count,
                forall|j: int|
                    0 <= j < INVENTORY_SIZE ==> (#[trigger] self@[j]).is_some() ==> (
                    spec_can_merge(self@[j].unwrap(), orig) ==> self@[j].unwrap().count >= 64),
                slots_view(self@) == ms,
                merge_from(slots_view(old(self)@), id, meta_of(orig.metadata), orig.count as int, 0) == (ms, Some(pending.count as int)),
                first_empty(ms, i as int) == first_empty(ms, 0),
            decreases INVENTORY_SIZE - i,
        {
            if self.slots[i].is_none() {
                let ghost before_inv: Inventory = *self;
                let ghost before = self@;
                let ghost placed = pending;
                self.slots[i] = Some(pending);
                proof {
                    assert(self@ == before.update(i as int, Some(placed)));
                    assert(slots_view(self@) =~= ms.update(i as int, slot_view(Some(placed))));
                    lemma_total_count_update(before, id, i as int, Some(placed));
                    assert forall|other: ItemId| other != id implies #[trigger] self.count_of(other) == old(self).count_of(other) by {
                        lemma_total_count_update(before, other, i as int, Some(placed));
                        assert(before_inv.count_of(other) == old(self).count_of(other));
                    }
                }
                return None;
            }
            i = i + 1;
        }
        assert(first_empty(ms, i as int) == None::<int>);
        Some(pending)
    }

    /// Remove up to `amount` items of `item_id`, slot by slot, emptying slots that reach zero.
    /// Returns how many were removed: `min(amount, count)`.
    pub fn remove_item(&mut self, item_id: ItemId, amount: u8) -> (removed: u8)
        requires
            old(self).wf(),
        ensures
            final(self).wf(),
            removed == (if amount < old(self).count_of(item_id) {
                amount as int
            } else {
                old(self).count_of(item_id)
            }),
            final(self).count_of(item_id) == old(self).count_of(item_id) - removed,
            forall|id: ItemId|
                id != item_id ==> #[trigger] final(self).count_of(id) == old(self).count_of(id),
            slots_view(final(self)@) == remove_from(slots_view(old(self)@), item_id, amount as int, 0),
    {
        let mut remaining = amount;
        let mut i: usize = 0;
        while i < INVENTORY_SIZE && remaining > 0
            invariant
                self.wf(),
                i <= INVENTORY_SIZE,
                remaining <= amount,
                total_count(self@, item_id) == total_count(old(self)@, item_id) - (amount
                    - remaining),
                remaining > 0 ==> forall|j: int|
                    0 <= j < i ==> slot_count(#[trigger] self@[j], item_id) == 0,
                forall|id: ItemId|
                    id != item_id ==> #[trigger] self.count_of(id) == old(self).count_of(id),
                remove_from(slots_view(self@), item_id, remaining as int, i as int) == remove_from(
                    slots_view(old(self)@),
                    item_id,
                    amount as int,
                    0,
                ),
            decreases INVENTORY_SIZE - i,
        {
            let ghost view_before = slots_view(self@);
            let hit = match &self.slots[i] {
                Some(s) => s.item_id == item_id,
                None => false,
            };
            if hit {
                let ghost before_inv: Inventory = *self;
                let ghost before = self@;
                let mut s = self.slots[i].take().unwrap();
                let r = s.remove(remaining);
                remaining = remaining - r;
                let new_slot = if s.count == 0 {
                    None
                } else {
                    Some(s)
                };
                let ghost ns = new_slot;
                self.slots[i] = new_slot;
                proof {
                    assert(self@ == before.update(i as int, ns));
                    assert(slots_view(self@) =~= view_before.update(i as int, slot_view(ns)));
                    lemma_total_count_update(before, item_id, i as int, ns);
                    assert forall|other: ItemId| other != item_id implies #[trigger] self.count_of(other) == old(self).count_of(other) by {
                        lemma_total_count_update(before, other, i as int, ns);
                        assert(before_inv.count_of(other) == old(self).count_of(other));
                    }
                }
            }
            i = i + 1;
        }
        proof {
            assert(remove_from(slots_view(self@), item_id, remaining as int, i as int) == slots_view(self@));
            lemma_total_count_bounds(self@, item_id);
            if remaining > 0 {
                lemma_total_count_zero(self@, item_id);
            }
        }
        amount - remaining
    }

    /// Total items of `item_id` in the inventory.
    pub fn count_item(&self, item_id: ItemId) -> (res: u32)
        requires
            self.wf(),
        ensures
            res == self.count_of(item_id),
    {
        let mut total: u32 = 0;
        let mut i: usize = 0;
        while i < self.slots.len()
            invariant
                self.wf(),
                i <= INVENTORY_SIZE,
                total == total_count(self@.take(i as int), item_id),
            decreases INVENTORY_SIZE - i,
        {
            proof {
                lemma_total_count_take(self@, item_id, i as int);
                lemma_total_count_bounds(self@.take(i as int + 1), item_id);
            }
            match &self.slots[i] {
                Some(s) => {
                    if s.item_id == item_id {
                        total = total + s.count as u32;
                    }
                },
                None => {},
            }
            i = i + 1;
        }
        assert(self@.take(INVENTORY_SIZE as int) =~= self@);
        total
    }

    /// Whether the inventory holds at least `amount` items of `item_id`.
    pub fn has_item(&self, item_id: ItemId, amount: u8) -> (res: bool)
        requires
            self.wf(),
        ensures
            res == (self.count_of(item_id) >= amount),
    {
        self.count_item(item_id) >= amount as u32
    }

    /// The first slot holding `item_id`.
    pub fn find_item(&self, item_id: ItemId) -> (res: Option<usize>)
        requires
            self.wf(),
        ensures
            match res {
                Some(i) => i < INVENTORY_SIZE && self@[i as int].is_some() && self@[i as int].unwrap().item_id
                    == item_id && forall|j: int|
                    0 <= j < i ==> !(#[trigger] self@[j].is_some() && self@[j].unwrap().item_id
                        == item_id),
                None => forall|j: int|
                    0 <= j < INVENTORY_SIZE ==> !(#[trigger] self@[j].is_some()
                        && self@[j].unwrap().item_id == item_id),
            },
    {
        let mut i: usize = 0;
        while i < INVENTORY_SIZE
            invariant
                self.wf(),
                i <= INVENTORY_SIZE,
                forall|j: int|
                    0 <= j < i ==> !(#[trigger] self@[j].is_some() && self@[j].unwrap().item_id
                        == item_id),
            decreases INVENTORY_SIZE - i,
        {
            match &self.slots[i] {
                Some(s) => {
                    if s.item_id == item_id {
                        return Some(i);
                    }
                },
                None => {},
            }
            i = i + 1;
        }
        None
    }

    /// Number of empty slots.
    pub fn empty_slots(&self) -> (res: usize)
        requires
            self.wf(),
        ensures
            res == empty_count(self@),
    {
        let mut n: usize = 0;
        let mut i: usize = 0;
        while i < INVENTORY_SIZE
            invariant
                self.wf(),
                i <= INVENTORY_SIZE,
                n == empty_count(self@.take(i as int)),
                n <= i,
            decreases INVENTORY_SIZE - i,
        {
            proof {
                lemma_empty_count_take(self@, i as int);
            }
            if self.slots[i].is_none() {
                n = n + 1;
            }
            i = i + 1;
        }
        assert(self@.take(INVENTORY_SIZE as int) =~= self@);
        n
    }

    /// Whether every slot is empty.
    pub fn is_empty(&self) -> (res: bool)
        requires
            self.wf(),
        ensures
            res == forall|j: int| 0 <= j < INVENTORY_SIZE ==> #[trigger] self@[j].is_none(),
    {
        let mut i: usize = 0;
        while i < INVENTORY_SIZE
            invariant
                self.wf(),
                i <= INVENTORY_SIZE,
                forall|j: int| 0 <= j < i ==> #[trigger] self@[j].is_none(),
            decreases INVENTORY_SIZE - i,
        {
            if self.slots[i].is_some() {
                assert(!self@[i as int].is_none());
                return false;
            }
            i = i + 1;
        }
        true
    }

    /// Whether every slot holds a stack.
    pub fn is_full(&self) -> (res: bool)
        requires
            self.wf(),
        ensures
            res == forall|j: int| 0 <= j < INVENTORY_SIZE ==> #[trigger] self@[j].is_some(),
    {
        let mut i: usize = 0;
        while i < INVENTORY_SIZE
            invariant
                self.wf(),
                i <= INVENTORY_SIZE,
                forall|j: int| 0 <= j < i ==> #[trigger] self@[j].is_some(),
            decreases INVENTORY_SIZE - i,
        {
            if self.slots[i].is_none() {
                assert(!self@[i as int].is_some());
                return false;
            }
            i = i + 1;
        }
        true
    }
}

impl Default for Inventory {
    fn default() -> (res: Self)
        ensures
            res.wf(),
            forall|i: int| 0 <= i < INVENTORY_SIZE ==> #[trigger] res@[i].is_none(),
    {
        Inventory::new()
    }
}

} // verus!
