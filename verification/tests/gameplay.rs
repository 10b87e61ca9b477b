use worldgraph::game_logic::{complete_quest, handle_combat};
use worldgraph::inventory::{add_item_to_inventory, remove_item_from_inventory, Inventory};
use worldgraph::item::{Item, UseOutcome};
use worldgraph::player::Player;
use worldgraph::quest::Quest;

fn player() -> Player {
    Player {
        id: 1,
        username: "ada".to_string(),
        level: 3,
        health: 40,
        max_health: 50,
        experience: 950,
    }
}

fn potion(value: i32, magical: bool) -> Item {
    Item {
        id: 10,
        name: "Potion of Tests".to_string(),
        description: "Fizzy.".to_string(),
        item_type: "Potion".to_string(),
        value,
        durability: None,
        is_magical: magical,
        is_cursed: false,
    }
}

#[test]
fn level_up_grows_pool_and_refills() {
    let mut p = player();
    p.level_up();
    assert_eq!(p.level, 4);
    assert_eq!(p.max_health, 60);
    assert_eq!(p.health, 60);
    assert_eq!(p.experience, 0);
}

#[test]
fn take_damage_clamps_at_zero() {
    let mut p = player();
    p.take_damage(15);
    assert_eq!(p.health, 25);
    p.take_damage(1000);
    assert_eq!(p.health, 0);
}

#[test]
fn heal_caps_at_max_health() {
    let mut p = player();
    p.heal(5);
    assert_eq!(p.health, 45);
    p.heal(500);
    assert_eq!(p.health, 50);
}

#[test]
fn quest_complete_sets_flag_only() {
    let mut q = Quest {
        id: 7,
        title: "Fetch".to_string(),
        description: "Bring the thing.".to_string(),
        completed: false,
    };
    q.complete();
    assert!(q.completed);
    assert_eq!(q.title, "Fetch");
}

#[test]
fn complete_quest_awards_experience_and_levels_up_at_threshold() {
    let mut p = player(); // 950 experience
    let mut q = Quest {
        id: 7,
        title: "Fetch".to_string(),
        description: String::new(),
        completed: false,
    };
    complete_quest(&mut p, &mut q);
    assert!(q.completed);
    // 950 + 100 >= 1000: the player levels up and experience resets
    assert_eq!(p.level, 4);
    assert_eq!(p.experience, 0);
    assert_eq!(p.health, 60);

    let mut p2 = player();
    p2.experience = 100;
    let mut q2 = Quest {
        id: 8,
        title: "Carry".to_string(),
        description: String::new(),
        completed: false,
    };
    complete_quest(&mut p2, &mut q2);
    assert_eq!(p2.level, 3);
    assert_eq!(p2.experience, 200);
    assert_eq!(p2.health, 40);
}

#[test]
fn handle_combat_hurts_both_sides() {
    let mut p = player();
    let remaining = handle_combat(&mut p, 30);
    assert_eq!(remaining, 20);
    assert_eq!(p.health, 30);
}

#[test]
fn use_item_broken_does_nothing() {
    let mut p = player();
    let mut sword = potion(10, false);
    sword.item_type = "Weapon".to_string();
    sword.durability = Some(0);
    let outcome = sword.use_item(&mut p);
    assert_eq!(outcome, UseOutcome::Broken);
    assert_eq!(sword.durability, Some(0));
    assert_eq!(p.health, 40);
}

#[test]
fn use_item_magical_potion_heals_three_times_value() {
    let mut p = player(); // 40 of 50
    let mut brew = potion(2, true);
    let outcome = brew.use_item(&mut p);
    assert_eq!(outcome, UseOutcome::Potion);
    // 40 + 2*2 (magical bonus) + 2 = 46
    assert_eq!(p.health, 46);
}

#[test]
fn use_item_plain_potion_heals_value_and_spends_durability() {
    let mut p = player();
    let mut brew = potion(5, false);
    brew.durability = Some(3);
    let outcome = brew.use_item(&mut p);
    assert_eq!(outcome, UseOutcome::Potion);
    assert_eq!(p.health, 45);
    assert_eq!(brew.durability, Some(2));
}

#[test]
fn use_item_weapon_equips() {
    let mut p = player();
    let mut sword = potion(10, false);
    sword.item_type = "Weapon".to_string();
    let outcome = sword.use_item(&mut p);
    assert_eq!(outcome, UseOutcome::Weapon);
    assert_eq!(p.health, 40);
}

#[test]
fn inventory_add_item_accumulates_and_replaces_durability() {
    let mut row = Inventory { player_id: 1, item_id: 10, quantity: 2, durability: None };
    row.add_item(3, Some(80));
    assert_eq!(row.quantity, 5);
    assert_eq!(row.durability, Some(80));
    row.add_item(1, None);
    assert_eq!(row.quantity, 6);
    assert_eq!(row.durability, Some(80));
}

#[test]
fn inventory_remove_item_clamps_at_zero() {
    let mut row = Inventory { player_id: 1, item_id: 10, quantity: 2, durability: None };
    row.remove_item(1);
    assert_eq!(row.quantity, 1);
    row.remove_item(5);
    assert_eq!(row.quantity, 0);
}

#[test]
fn add_item_to_inventory_grows_existing_row_or_appends() {
    let mut rows = vec![Inventory { player_id: 1, item_id: 10, quantity: 2, durability: None }];
    let brew = potion(5, false);
    add_item_to_inventory(&mut rows, 1, &brew, 3);
    assert_eq!(rows.len(), 1);
    assert_eq!(rows[0].quantity, 5);

    let mut other = potion(5, false);
    other.id = 11;
    add_item_to_inventory(&mut rows, 1, &other, 7);
    assert_eq!(rows.len(), 2);
    assert_eq!(rows[1].item_id, 11);
    assert_eq!(rows[1].quantity, 7);
}

#[test]
fn remove_item_from_inventory_touches_only_the_matching_row() {
    let mut rows = vec![
        Inventory { player_id: 1, item_id: 10, quantity: 2, durability: None },
        Inventory { player_id: 1, item_id: 11, quantity: 4, durability: None },
    ];
    let brew = potion(5, false);
    remove_item_from_inventory(&mut rows, &brew, 9);
    assert_eq!(rows[0].quantity, 0);
    assert_eq!(rows[1].quantity, 4);

    let mut ghostly = potion(5, false);
    ghostly.id = 99;
    remove_item_from_inventory(&mut rows, &ghostly, 1);
    assert_eq!(rows.len(), 2);
    assert_eq!(rows[0].quantity, 0);
    assert_eq!(rows[1].quantity, 4);
}
