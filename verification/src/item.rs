//! Item records and the effect of using an item on a player.

use vstd::prelude::*;
use crate::player::Player;
use crate::text::str_eq;

verus! {

/// A usable or equippable item.
pub struct Item {
    pub id: i32,
    pub name: String,
    pub description: String,
    pub item_type: String,
    pub value: i32,
    pub durability: Option<i32>,
    pub is_magical: bool,
    pub is_cursed: bool,
}

/// What using an item amounted to, for the caller to report.
#[derive(Clone, Copy, Debug, PartialEq, Eq, Structural)]
pub enum UseOutcome {
    /// The item's durability is exhausted; nothing happened.
    Broken,
    /// A potion was drunk and the player healed.
    Potion,
    /// A weapon was equipped.
    Weapon,
    /// Any other kind of item was used.
    Other,
}

/// Health after healing by `amount`, capped at `max`.
pub open spec fn healed(health: int, max: int, amount: int) -> int {
    if health + amount > max {
        max
    } else {
        health + amount
    }
}

impl Item {
    /// Whether the item is a potion.
    pub open spec fn is_potion(&self) -> bool {
        self.item_type@ == "Potion"@
    }

    /// Whether the item is a weapon.
    pub open spec fn is_weapon(&self) -> bool {
        self.item_type@ == "Weapon"@
    }

    /// The player's health after this item is used on them once: a magical
    /// potion heals twice the item's value on top of the potion's own heal;
    /// anything else leaves health alone.
    pub open spec fn health_after_use(&self, health: int, max: int) -> int {
        let h1 = if self.is_magical && self.is_potion() {
            healed(health, max, 2 * self.value)
        } else {
            health
        };
        if self.is_potion() {
            healed(h1, max, self.value as int)
        } else {
            h1
        }
    }

    /// Use the item once on `player`. A broken item (durability spent) does
    /// nothing; otherwise one durability point is consumed, a potion heals
    /// the player — doubly so first when magical — and the outcome reports
    /// what kind of use took place.
    pub fn use_item(&mut self, player: &mut Player) -> (outcome: UseOutcome)
        requires
            0 <= old(player).health,
            0 <= old(self).value,
            old(player).health + 3 * old(self).value <= i32::MAX,
            old(player).max_health + old(self).value <= i32::MAX,
        ensures
            old(self).durability matches Some(d) && d <= 0 ==> {
                &&& outcome == UseOutcome::Broken
                &&& *final(self) == *old(self)
                &&& *final(player) == *old(player)
            },
            !(old(self).durability matches Some(d) && d <= 0) ==> {
                &&& final(self).durability == match old(self).durability {
                    Some(d) => Some((d - 1) as i32),
                    None => None,
                }
                &&& final(self).id == old(self).id
                &&& final(self).name == old(self).name
                &&& final(self).description == old(self).description
                &&& final(self).item_type == old(self).item_type
                &&& final(self).value == old(self).value
                &&& final(self).is_magical == old(self).is_magical
                &&& final(self).is_cursed == old(self).is_cursed
                &&& final(player).health == old(self).health_after_use(
                    old(player).health as int,
                    old(player).max_health as int,
                )
                &&& final(player).id == old(player).id
                &&& final(player).username == old(player).username
                &&& final(player).level == old(player).level
                &&& final(player).max_health == old(player).max_health
                &&& final(player).experience == old(player).experience
                &&& outcome == if old(self).is_potion() {
                    UseOutcome::Potion
                } else if old(self).is_weapon() {
                    UseOutcome::Weapon
                } else {
                    UseOutcome::Other
                }
            },
    {
        if let Some(d) = self.durability {
            if d <= 0 {
                return UseOutcome::Broken;
            }
            self.durability = Some(d - 1);
        }
        let potion = str_eq(self.item_type.as_str(), "Potion");
        if self.is_magical && potion {
            player.heal(2 * self.value);
        }
        if potion {
            player.heal(self.value);
            UseOutcome::Potion
        } else if str_eq(self.item_type.as_str(), "Weapon") {
            UseOutcome::Weapon
        } else {
            UseOutcome::Other
        }
    }
}

} // verus!
