//! Player records and the health and level arithmetic on them.

use vstd::prelude::*;

verus! {

/// A player of the game. Health is kept within `0 ..= max_health` by the
/// methods below; the record itself places no bound on the fields.
pub struct Player {
    pub id: i32,
    pub username: String,
    pub level: i32,
    pub health: i32,
    pub max_health: i32,
    pub experience: i32,
}

impl Player {
    /// Raise the level by one, grow the health pool by ten and refill it,
    /// and reset the experience counter.
    pub fn level_up(&mut self)
        requires
            old(self).level < i32::MAX,
            old(self).max_health + 10 <= i32::MAX,
        ensures
            final(self).level == old(self).level + 1,
            final(self).max_health == old(self).max_health + 10,
            final(self).health == final(self).max_health,
            final(self).experience == 0,
            final(self).id == old(self).id,
            final(self).username == old(self).username,
    {
        self.level = self.level + 1;
        self.max_health = self.max_health + 10;
        self.health = self.max_health;
        self.experience = 0;
    }

    /// Subtract `amount` from health, clamping at zero.
    pub fn take_damage(&mut self, amount: i32)
        requires
            0 <= amount,
            0 <= old(self).health,
        ensures
            final(self).health == if old(self).health - amount < 0 {
                0int
            } else {
                old(self).health - amount
            },
            final(self).id == old(self).id,
            final(self).username == old(self).username,
            final(self).level == old(self).level,
            final(self).max_health == old(self).max_health,
            final(self).experience == old(self).experience,
    {
        if self.health >= amount {
            self.health = self.health - amount;
        } else {
            self.health = 0;
        }
    }

    /// Add `amount` to health, capping at `max_health`.
    pub fn heal(&mut self, amount: i32)
        requires
            0 <= amount,
            old(self).health + amount <= i32::MAX,
        ensures
            final(self).health == if old(self).health + amount > old(self).max_health {
                old(self).max_health as int
            } else {
                old(self).health + amount
            },
            final(self).id == old(self).id,
            final(self).username == old(self).username,
            final(self).level == old(self).level,
            final(self).max_health == old(self).max_health,
            final(self).experience == old(self).experience,
    {
        self.health = self.health + amount;
        if self.health > self.max_health {
            self.health = self.max_health;
        }
    }
}

} // verus!
