//! Inventory rows (one per player and item) and the stock arithmetic on
//! them, both on a single row and on a player's whole row list.

use vstd::prelude::*;
use crate::item::Item;

verus! {

/// One inventory row: how many of item `item_id` player `player_id` holds.
pub struct Inventory {
    pub player_id: i32,
    pub item_id: i32,
    pub quantity: i32,
    pub durability: Option<i32>,
}

impl Inventory {
    /// Add `quantity` to the stock; a given durability replaces the stored
    /// one, an absent one leaves it alone.
    pub fn add_item(&mut self, quantity: i32, durability: Option<i32>)
        requires
            i32::MIN <= old(self).quantity + quantity <= i32::MAX,
        ensures
            final(self).quantity == old(self).quantity + quantity,
            final(self).durability == if durability is Some {
                durability
            } else {
                old(self).durability
            },
            final(self).player_id == old(self).player_id,
            final(self).item_id == old(self).item_id,
    {
        self.quantity = self.quantity + quantity;
        if let Some(d) = durability {
            self.durability = Some(d);
        }
    }

    /// Remove `quantity` from the stock, clamping at zero when more is
    /// removed than is held.
    pub fn remove_item(&mut self, quantity: i32)
        requires
            old(self).quantity - quantity <= i32::MAX,
        ensures
            final(self).quantity == if old(self).quantity >= quantity {
                old(self).quantity - quantity
            } else {
                0int
            },
            final(self).player_id == old(self).player_id,
            final(self).item_id == old(self).item_id,
            final(self).durability == old(self).durability,
    {
        if self.quantity >= quantity {
            self.quantity = self.quantity - quantity;
        } else {
            self.quantity = 0;
        }
    }
}

/// Some row of `inv` is for item `item_id`.
pub open spec fn has_item_row(inv: Seq<Inventory>, item_id: i32) -> bool {
    exists|k: int| 0 <= k < inv.len() && inv[k].item_id == item_id
}

/// Add `quantity` of `item` to the first row for it, or append a fresh row
/// when the player holds none of it yet.
#[verifier::loop_isolation(false)]
pub fn add_item_to_inventory(inventory: &mut Vec<Inventory>, player_id: i32, item: &Item, quantity: i32)
    requires
        forall|k: int|
            0 <= k < old(inventory)@.len() && old(inventory)@[k].item_id == item.id
                ==> i32::MIN <= #[trigger] old(inventory)@[k].quantity + quantity <= i32::MAX,
    ensures
        has_item_row(old(inventory)@, item.id) ==> exists|k: int|
            {
                &&& 0 <= k < old(inventory)@.len()
                &&& old(inventory)@[k].item_id == item.id
                &&& (forall|a: int| 0 <= a < k ==> old(inventory)@[a].item_id != item.id)
                &&& final(inventory)@ == old(inventory)@.update(
                    k,
                    Inventory {
                        quantity: (old(inventory)@[k].quantity + quantity) as i32,
                        ..old(inventory)@[k]
                    },
                )
            },
        !has_item_row(old(inventory)@, item.id) ==> final(inventory)@ == old(inventory)@.push(
            Inventory { player_id, item_id: item.id, quantity, durability: None },
        ),
{
    let n = inventory.len();
    let mut i: usize = 0;
    while i < n
        invariant
            i <= n,
            n == inventory@.len(),
            inventory@ == old(inventory)@,
            forall|a: int| 0 <= a < i ==> inventory@[a].item_id != item.id,
        decreases n - i,
    {
        if inventory[i].item_id == item.id {
            let ghost pre = inventory@;
            proof {
                assert(i32::MIN <= old(inventory)@[i as int].quantity + quantity <= i32::MAX);
            }
            inventory[i].add_item(quantity, None);
            proof {
                assert(inventory@ =~= pre.update(
                    i as int,
                    Inventory { quantity: (pre[i as int].quantity + quantity) as i32, ..pre[i as int] },
                ));
            }
            return ;
        }
        i = i + 1;
    }
    inventory.push(Inventory { player_id, item_id: item.id, quantity, durability: None });
}

/// Remove `quantity` of `item` from the first row for it (clamping at
/// zero); a player holding none of it keeps the list unchanged.
#[verifier::loop_isolation(false)]
pub fn remove_item_from_inventory(inventory: &mut Vec<Inventory>, item: &Item, quantity: i32)
    requires
        forall|k: int|
            0 <= k < old(inventory)@.len() && old(inventory)@[k].item_id == item.id
                ==> #[trigger] old(inventory)@[k].quantity - quantity <= i32::MAX,
    ensures
        has_item_row(old(inventory)@, item.id) ==> exists|k: int|
            {
                &&& 0 <= k < old(inventory)@.len()
                &&& old(inventory)@[k].item_id == item.id
                &&& (forall|a: int| 0 <= a < k ==> old(inventory)@[a].item_id != item.id)
                &&& final(inventory)@ == old(inventory)@.update(
                    k,
                    Inventory {
                        quantity: if old(inventory)@[k].quantity >= quantity {
                            (old(inventory)@[k].quantity - quantity) as i32
                        } else {
                            0
                        },
                        ..old(inventory)@[k]
                    },
                )
            },
        !has_item_row(old(inventory)@, item.id) ==> final(inventory)@ == old(inventory)@,
{
    let n = inventory.len();
    let mut i: usize = 0;
    while i < n
        invariant
            i <= n,
            n == inventory@.len(),
            inventory@ == old(inventory)@,
            forall|a: int| 0 <= a < i ==> inventory@[a].item_id != item.id,
        decreases n - i,
    {
        if inventory[i].item_id == item.id {
            let ghost pre = inventory@;
            proof {
                assert(old(inventory)@[i as int].quantity - quantity <= i32::MAX);
            }
            inventory[i].remove_item(quantity);
            proof {
                assert(inventory@ =~= pre.update(
                    i as int,
                    Inventory {
                        quantity: if pre[i as int].quantity >= quantity {
                            (pre[i as int].quantity - quantity) as i32
                        } else {
                            0
                        },
                        ..pre[i as int]
                    },
                ));
            }
            return ;
        }
        i = i + 1;
    }
}

} // verus!
