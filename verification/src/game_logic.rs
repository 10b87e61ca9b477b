//! Combat and quest-completion rules on players and quests.

use vstd::prelude::*;
use crate::player::Player;
use crate::quest::Quest;

verus! {

/// Experience awarded for completing a quest.
pub const QUEST_EXPERIENCE: i32 = 100;

/// Experience at which a player levels up.
pub const LEVEL_UP_THRESHOLD: i32 = 1000;

/// One round of combat: the player takes ten damage (clamped at zero
/// health) and the monster loses ten health.
pub fn handle_combat(player: &mut Player, monster_health: i32) -> (remaining: i32)
    requires
        0 <= old(player).health,
        i32::MIN + 10 <= monster_health,
    ensures
        remaining == monster_health - 10,
        final(player).health == if old(player).health - 10 < 0 {
            0int
        } else {
            old(player).health - 10
        },
        final(player).id == old(player).id,
        final(player).username == old(player).username,
        final(player).level == old(player).level,
        final(player).max_health == old(player).max_health,
        final(player).experience == old(player).experience,
{
    player.take_damage(10);
    monster_health - 10
}

/// Complete `quest` and award the player its experience; a player reaching
/// the level-up threshold levels up (which resets experience to zero).
pub fn complete_quest(player: &mut Player, quest: &mut Quest)
    requires
        old(player).experience + QUEST_EXPERIENCE <= i32::MAX,
        old(player).level < i32::MAX,
        old(player).max_health + 10 <= i32::MAX,
    ensures
        final(quest).completed,
        final(quest).id == old(quest).id,
        final(quest).title == old(quest).title,
        final(quest).description == old(quest).description,
        final(player).id == old(player).id,
        final(player).username == old(player).username,
        old(player).experience + QUEST_EXPERIENCE >= LEVEL_UP_THRESHOLD ==> {
            &&& final(player).level == old(player).level + 1
            &&& final(player).max_health == old(player).max_health + 10
            &&& final(player).health == final(player).max_health
            &&& final(player).experience == 0
        },
        old(player).experience + QUEST_EXPERIENCE < LEVEL_UP_THRESHOLD ==> {
            &&& final(player).level == old(player).level
            &&& final(player).max_health == old(player).max_health
            &&& final(player).health == old(player).health
            &&& final(player).experience == old(player).experience + QUEST_EXPERIENCE
        },
{
    quest.complete();
    player.experience = player.experience + QUEST_EXPERIENCE;
    if player.experience >= LEVEL_UP_THRESHOLD {
        player.level_up();
    }
}

} // verus!
