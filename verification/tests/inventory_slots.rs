use mdminecraft_world::inventory::{Inventory, ItemStack};

#[test]
fn remove_item_empties_slots_in_order() {
    let mut inv = Inventory::new();
    inv.set(0, Some(ItemStack::new(1, 5)));
    inv.set(1, Some(ItemStack::new(2, 9)));
    inv.set(2, Some(ItemStack::new(1, 10)));
    let removed = inv.remove_item(1, 7);
    assert_eq!(removed, 7);
    assert!(inv.get(0).is_none());
    assert_eq!(inv.get(1).unwrap().count, 9);
    assert_eq!(inv.get(2).unwrap().count, 8);
}

#[test]
fn add_item_skips_stacks_with_other_metadata() {
    let mut inv = Inventory::new();
    inv.set(0, Some(ItemStack::with_metadata(1, 10, vec![7])));
    inv.set(2, Some(ItemStack::new(1, 10)));
    let rest = inv.add_item(ItemStack::new(1, 60));
    assert!(rest.is_none());
    assert_eq!(inv.get(0).unwrap().count, 10);
    assert_eq!(inv.get(2).unwrap().count, 64);
    assert_eq!(inv.get(1).unwrap().count, 6);
    assert!(inv.get(1).unwrap().metadata.is_none());
}

#[test]
fn add_item_of_nothing_fills_an_empty_slot_when_nothing_merges() {
    let mut inv = Inventory::new();
    let rest = inv.add_item(ItemStack::new(3, 0));
    assert!(rest.is_none());
    assert_eq!(inv.get(0).unwrap().count, 0);
}
