use roguelike::color::{green, light_blue, light_cyan, light_green, light_violet, orange, red, white, yellow, Color};
use roguelike::game::{GameState, Mouse, PLAYER};
use roguelike::inventory::{Aim, Targeting, INVENTORY_LIMIT};
use roguelike::map::{create_room, spawn_item, spawn_monster, Monster, Rect, Tile};
use roguelike::message::Messages;
use roguelike::object::{Ai, DeathCallback, Fighter, Item, Object};
use roguelike::progress::{boost_for, Boost, LEVEL_UP_BASE, LEVEL_UP_FACTOR};
use roguelike::spells::{
    Targeted, UseResult, CONFUSE_NUM_TURNS, CONFUSE_RANGE, FIREBALL_DAMAGE, FIREBALL_RADIUS,
    HEAL_AMOUNT, LIGHTNING_DAMAGE, LIGHTNING_RANGE,
};

fn items_hero(x: i32, y: i32) -> Object {
    let mut player = Object::new(x, y, '@', "player", white(), true);
    player.alive = true;
    player.fighter = Some(Fighter {
        max_hp: 30,
        hp: 30,
        defense: 2,
        power: 5,
        xp: 0,
        on_death: DeathCallback::Player,
    });
    player
}

fn cellar() -> GameState {
    let mut map = vec![vec![Tile::wall(); 100]; 100];
    create_room(Rect::new(0, 0, 99, 99), &mut map);
    GameState {
        objects: vec![items_hero(10, 10)],
        map,
        messages: Messages::new(50),
        inventory: Vec::new(),
        dungeon_level: 1,
        fov: vec![vec![true; 100]; 100],
        camera_pos: (0, 0),
        previous_player_pos: (-1, -1),
        mouse: Mouse { cx: 0, cy: 0, lbutton_pressed: false, rbutton_pressed: false },
        disable_fov: false,
    }
}

fn monster_with(kind: Monster, x: i32, y: i32, hp: i32) -> Object {
    let mut monster = spawn_monster(kind, x, y);
    monster.fighter.as_mut().unwrap().hp = hp;
    monster
}

fn log_of(state: &GameState) -> Vec<(String, Color)> {
    (0..state.messages.len()).map(|i| (state.messages.text(i).clone(), state.messages.color(i))).collect()
}

#[test]
fn constants_of_the_items() {
    assert_eq!(HEAL_AMOUNT, 4);
    assert_eq!((LIGHTNING_DAMAGE, LIGHTNING_RANGE), (20, 5));
    assert_eq!((CONFUSE_RANGE, CONFUSE_NUM_TURNS), (8, 10));
    assert_eq!((FIREBALL_RADIUS, FIREBALL_DAMAGE), (3, 12));
    assert_eq!(INVENTORY_LIMIT, 26);
    assert_eq!((LEVEL_UP_BASE, LEVEL_UP_FACTOR), (200, 150));
}

#[test]
fn item_is_picked_up_and_leaves_the_map() {
    let mut state = cellar();
    state.objects.push(spawn_item(Item::Heal, 10, 10));
    state.objects.push(spawn_monster(Monster::Orc, 20, 20));
    state.objects.push(spawn_item(Item::Confuse, 30, 30));
    state.pick_item_up(1);
    assert_eq!(state.inventory.len(), 1);
    assert_eq!(state.inventory[0].name, "healing potion");
    // the last object has taken the place of the one that left
    let names: Vec<&str> = state.objects.iter().map(|object| object.name.as_str()).collect();
    assert_eq!(names, vec!["player", "scroll of confusion", "orc"]);
    assert_eq!(log_of(&state), vec![(String::from("You picked up a healing potion!"), green())]);
    assert!(state.is_sound());
}

#[test]
fn last_object_is_picked_up() {
    let mut state = cellar();
    state.objects.push(spawn_item(Item::Heal, 10, 10));
    state.pick_item_up(1);
    assert_eq!(state.objects.len(), 1);
    assert_eq!(state.inventory.len(), 1);
}

#[test]
fn full_inventory_leaves_item_on_the_map() {
    let mut state = cellar();
    for _ in 0..26 {
        state.inventory.push(spawn_item(Item::Heal, 0, 0));
    }
    state.objects.push(spawn_item(Item::Fireball, 10, 10));
    state.pick_item_up(1);
    assert_eq!(state.inventory.len(), 26);
    assert_eq!(state.objects.len(), 2);
    assert_eq!(state.objects[1].name, "scroll of fireball");
    assert_eq!(state.objects[1].pos(), (10, 10));
    assert_eq!(
        log_of(&state),
        vec![(String::from("Your inventory is full, cannot pick up scroll of fireball."), red())]
    );
}

#[test]
fn inventory_takes_its_last_slot() {
    let mut state = cellar();
    for _ in 0..25 {
        state.inventory.push(spawn_item(Item::Heal, 0, 0));
    }
    state.objects.push(spawn_item(Item::Fireball, 10, 10));
    state.pick_item_up(1);
    assert_eq!(state.inventory.len(), 26);
    assert_eq!(state.objects.len(), 1);
}

#[test]
fn dropped_item_lies_where_the_player_stands() {
    let mut state = cellar();
    state.inventory.push(spawn_item(Item::Heal, 1, 1));
    state.inventory.push(spawn_item(Item::Equipment, 2, 2));
    state.inventory.push(spawn_item(Item::Confuse, 3, 3));
    state.objects[0].set_pos(40, 41);
    state.drop_item(1);
    let carried: Vec<&str> = state.inventory.iter().map(|object| object.name.as_str()).collect();
    assert_eq!(carried, vec!["healing potion", "scroll of confusion"]);
    assert_eq!(state.objects.len(), 2);
    assert_eq!(state.objects[1].name, "sword");
    assert_eq!(state.objects[1].pos(), (40, 41));
    assert_eq!(log_of(&state), vec![(String::from("You dropped a sword."), yellow())]);
    assert!(state.is_sound());
}

#[test]
fn potion_heals_and_is_used_up() {
    let mut state = cellar();
    state.objects[0].fighter.as_mut().unwrap().hp = 20;
    state.inventory.push(spawn_item(Item::Heal, 0, 0));
    assert_eq!(state.begin_use(0), Targeting::Nothing);
    state.use_item(0, Aim::Nothing);
    assert_eq!(state.objects[0].fighter.unwrap().hp, 24);
    assert!(state.inventory.is_empty());
    assert_eq!(log_of(&state), vec![(String::from("Your wounds start to feel better!"), light_violet())]);
}

#[test]
fn potion_heals_up_to_the_maximum() {
    let mut state = cellar();
    state.objects[0].fighter.as_mut().unwrap().hp = 28;
    assert_eq!(state.cast_heal(), UseResult::UsedUp);
    assert_eq!(state.objects[0].fighter.unwrap().hp, 30);
}

#[test]
fn potion_is_kept_in_full_health() {
    let mut state = cellar();
    state.inventory.push(spawn_item(Item::Heal, 0, 0));
    state.use_item(0, Aim::Nothing);
    assert_eq!(state.inventory.len(), 1);
    assert_eq!(state.objects[0].fighter.unwrap().hp, 30);
    assert_eq!(
        log_of(&state),
        vec![
            (String::from("You are already at full health."), red()),
            (String::from("Cancelled"), white()),
        ]
    );
}

#[test]
fn potion_does_nothing_for_who_cannot_fight() {
    let mut state = cellar();
    state.objects[0].fighter = None;
    assert_eq!(state.cast_heal(), UseResult::Cancelled);
    assert_eq!(state.messages.len(), 0);
}

#[test]
fn closest_monster_is_the_nearest_in_range_and_view() {
    let mut state = cellar();
    state.objects.push(spawn_monster(Monster::Orc, 14, 10));
    state.objects.push(spawn_monster(Monster::Troll, 12, 12));
    state.objects.push(spawn_monster(Monster::Orc, 11, 10));
    state.objects.push(spawn_item(Item::Heal, 10, 11));
    assert_eq!(state.closest_monster(5), Some(3));
    state.fov[11][10] = false;
    assert_eq!(state.closest_monster(5), Some(2));
    state.objects[2].ai = None;
    assert_eq!(state.closest_monster(5), Some(1));
    assert_eq!(state.closest_monster(3), None);
    assert_eq!(state.closest_monster(4), Some(1));
    assert_eq!(state.closest_monster(-1), None);
    assert_eq!(state.closest_monster(i32::MAX), Some(1));
}

#[test]
fn closest_monster_lies_within_the_range() {
    let mut state = cellar();
    state.objects.push(spawn_monster(Monster::Orc, 15, 13));
    // 5.83 tiles away
    assert_eq!(state.closest_monster(5), None);
    assert_eq!(state.closest_monster(6), Some(1));
    state.objects[1].set_pos(13, 14);
    // exactly 5 tiles away
    assert_eq!(state.closest_monster(5), Some(1));
    assert_eq!(state.closest_monster(4), None);
    state.objects[1].set_pos(15, 10);
    assert_eq!(state.closest_monster(5), Some(1));
    state.objects[1].set_pos(16, 10);
    assert_eq!(state.closest_monster(5), None);
    state.objects[1].set_pos(10, 10);
    assert_eq!(state.closest_monster(0), Some(1));
    assert_eq!(state.closest_monster(-1), None);
}

#[test]
fn closest_monster_beyond_the_range_does_not_hide_one_within() {
    let mut state = cellar();
    state.objects.push(spawn_monster(Monster::Orc, 13, 15));
    state.objects.push(spawn_monster(Monster::Troll, 10, 15));
    state.objects.push(spawn_monster(Monster::Orc, 14, 13));
    assert_eq!(state.closest_monster(5), Some(2));
    state.objects[2].set_pos(10, 16);
    assert_eq!(state.closest_monster(5), Some(3));
}

#[test]
fn lightning_does_not_reach_beyond_its_range() {
    let mut state = cellar();
    state.objects.push(spawn_monster(Monster::Orc, 13, 15));
    state.inventory.push(spawn_item(Item::Lightning, 0, 0));
    state.use_item(0, Aim::Nothing);
    assert_eq!(state.inventory.len(), 1);
    assert_eq!(state.inventory[0].name, "scroll of lightning bolt");
    assert_eq!(state.objects.len(), 2);
    assert_eq!(state.objects[1].fighter.unwrap().hp, 20);
    assert!(state.objects[1].alive);
    assert_eq!(state.objects[0].fighter.unwrap().xp, 0);
    assert_eq!(
        log_of(&state),
        vec![
            (String::from("No enemy is close enough to strike."), red()),
            (String::from("Cancelled"), white()),
        ]
    );
    assert_eq!(state.cast_lightning(), UseResult::Cancelled);
    state.objects[1].set_pos(13, 14);
    assert_eq!(state.cast_lightning(), UseResult::UsedUp);
    assert!(!state.objects[1].alive);
}

#[test]
fn closest_monster_is_the_first_of_equals() {
    let mut state = cellar();
    state.objects.push(spawn_monster(Monster::Orc, 10, 12));
    state.objects.push(spawn_monster(Monster::Orc, 12, 10));
    state.objects.push(spawn_monster(Monster::Orc, 8, 10));
    assert_eq!(state.closest_monster(5), Some(1));
}

#[test]
fn lightning_strikes_the_closest_enemy() {
    let mut state = cellar();
    state.objects.push(spawn_monster(Monster::Troll, 13, 10));
    state.objects.push(spawn_monster(Monster::Orc, 12, 10));
    state.inventory.push(spawn_item(Item::Lightning, 0, 0));
    state.use_item(0, Aim::Nothing);
    assert!(state.inventory.is_empty());
    assert_eq!(state.objects[1].fighter.unwrap().hp, 30);
    assert_eq!(state.objects[2].name, "remains of orc");
    assert_eq!(state.objects[0].fighter.unwrap().xp, 35);
    assert_eq!(
        log_of(&state),
        vec![
            (
                String::from("A lightning bolt strikes the orc with a loud thunder! The damage is 20 hit points."),
                light_blue()
            ),
            (String::from("orc is dead! You gain 35 experience points."), orange()),
        ]
    );
}

#[test]
fn lightning_wounds_what_it_does_not_kill() {
    let mut state = cellar();
    state.objects.push(spawn_monster(Monster::Troll, 13, 10));
    assert_eq!(state.cast_lightning(), UseResult::UsedUp);
    assert_eq!(state.objects[1].fighter.unwrap().hp, 10);
    assert_eq!(state.objects[0].fighter.unwrap().xp, 0);
    assert_eq!(state.messages.len(), 1);
}

#[test]
fn lightning_without_enemy_in_reach_is_cancelled() {
    let mut state = cellar();
    state.objects.push(spawn_monster(Monster::Orc, 30, 30));
    state.objects.push(spawn_monster(Monster::Orc, 11, 10));
    state.fov[11][10] = false;
    state.inventory.push(spawn_item(Item::Lightning, 0, 0));
    state.use_item(0, Aim::Nothing);
    assert_eq!(state.inventory.len(), 1);
    assert_eq!(state.inventory[0].name, "scroll of lightning bolt");
    assert_eq!(state.objects[1].fighter.unwrap().hp, 20);
    assert_eq!(state.objects[2].fighter.unwrap().hp, 20);
    assert_eq!(
        log_of(&state),
        vec![
            (String::from("No enemy is close enough to strike."), red()),
            (String::from("Cancelled"), white()),
        ]
    );
    assert_eq!(state.cast_lightning(), UseResult::Cancelled);
}

#[test]
fn confusion_asks_for_a_monster() {
    let mut state = cellar();
    state.inventory.push(spawn_item(Item::Confuse, 0, 0));
    assert_eq!(state.begin_use(0), Targeting::Monster);
    assert_eq!(
        log_of(&state),
        vec![(String::from("Left-click an enemy to confuse it, or right-click to cancel."), light_cyan())]
    );
    assert_eq!(state.inventory.len(), 1);
}

#[test]
fn confusion_wraps_what_the_monster_was() {
    let mut state = cellar();
    state.objects.push(spawn_monster(Monster::Orc, 13, 10));
    state.inventory.push(spawn_item(Item::Confuse, 0, 0));
    state.use_item(0, Aim::Monster(1));
    assert!(state.inventory.is_empty());
    assert_eq!(state.objects[1].ai, Some(Ai::Confused { previous_ai: Box::new(Ai::Basic), num_turns: 10 }));
    assert_eq!(
        log_of(&state),
        vec![(String::from("The eyes of orc look vacant, as it starts to stumble around!"), light_green())]
    );
    assert_eq!(state.cast_confuse(Some(1)), UseResult::UsedUp);
    assert_eq!(
        state.objects[1].ai,
        Some(Ai::Confused {
            previous_ai: Box::new(Ai::Confused { previous_ai: Box::new(Ai::Basic), num_turns: 10 }),
            num_turns: 10
        })
    );
}

#[test]
fn confusion_of_what_did_not_act_wears_off_into_a_basic_actor() {
    let mut state = cellar();
    state.objects.push(spawn_item(Item::Heal, 13, 10));
    assert_eq!(state.cast_confuse(Some(1)), UseResult::UsedUp);
    assert_eq!(state.objects[1].ai, Some(Ai::Confused { previous_ai: Box::new(Ai::Basic), num_turns: 10 }));
}

#[test]
fn confusion_without_target_is_cancelled() {
    let mut state = cellar();
    state.objects.push(spawn_monster(Monster::Orc, 13, 10));
    state.inventory.push(spawn_item(Item::Confuse, 0, 0));
    state.use_item(0, Aim::Nothing);
    assert_eq!(state.inventory.len(), 1);
    assert_eq!(state.objects[1].ai, Some(Ai::Basic));
    assert_eq!(log_of(&state), vec![(String::from("Cancelled"), white())]);
    state.use_item(0, Aim::Tile(13, 10));
    assert_eq!(state.inventory.len(), 1);
    assert_eq!(state.cast_confuse(Some(7)), UseResult::Cancelled);
    assert_eq!(state.cast_confuse(None), UseResult::Cancelled);
}

#[test]
fn confused_monster_recovers_after_its_turns() {
    let mut state = cellar();
    state.objects.push(spawn_monster(Monster::Orc, 50, 50));
    assert_eq!(state.cast_confuse(Some(1)), UseResult::UsedUp);
    for _ in 0..11 {
        state.ai_step(1, (0, 0));
        assert!(matches!(state.objects[1].ai, Some(Ai::Confused { .. })));
    }
    assert_eq!(state.messages.len(), 1);
    state.ai_step(1, (0, 0));
    assert_eq!(state.objects[1].ai, Some(Ai::Basic));
    assert_eq!(state.messages.len(), 2);
    assert_eq!(state.messages.text(1), "The orc is no longer confused!");
}

#[test]
fn fireball_asks_for_a_tile() {
    let mut state = cellar();
    state.inventory.push(spawn_item(Item::Fireball, 0, 0));
    assert_eq!(state.begin_use(0), Targeting::Tile);
    assert_eq!(
        log_of(&state),
        vec![(String::from("Left-click a target tile for the fireball, or right-click to cancel."), light_cyan())]
    );
}

#[test]
fn fireball_burns_monsters_and_player_but_pays_for_monsters_only() {
    let mut state = cellar();
    state.objects.push(monster_with(Monster::Orc, 12, 10, 10));
    state.objects.push(monster_with(Monster::Troll, 11, 12, 8));
    state.inventory.push(spawn_item(Item::Fireball, 0, 0));
    state.use_item(0, Aim::Tile(11, 10));
    assert!(state.inventory.is_empty());
    assert_eq!(state.objects[0].fighter.unwrap().hp, 18);
    assert_eq!(state.objects[0].fighter.unwrap().max_hp, 30);
    assert!(state.objects[0].alive);
    assert!(!state.objects[1].alive && !state.objects[2].alive);
    assert_eq!(state.objects[1].name, "remains of orc");
    assert_eq!(state.objects[2].name, "remains of troll");
    assert_eq!(state.objects[0].fighter.unwrap().xp, 135);
    assert_eq!(
        log_of(&state),
        vec![
            (String::from("The fireball explodes, burning everything within 3 tiles!"), orange()),
            (String::from("The player gets burned for 12 hit points."), orange()),
            (String::from("The orc gets burned for 12 hit points."), orange()),
            (String::from("orc is dead! You gain 35 experience points."), orange()),
            (String::from("The troll gets burned for 12 hit points."), orange()),
            (String::from("troll is dead! You gain 100 experience points."), orange()),
        ]
    );
    assert!(state.is_sound());
}

#[test]
fn fireball_pays_nothing_for_the_player_it_kills() {
    let mut state = cellar();
    state.objects[0].fighter.as_mut().unwrap().hp = 5;
    state.objects[0].fighter.as_mut().unwrap().xp = 50;
    state.objects.push(monster_with(Monster::Orc, 12, 10, 13));
    assert_eq!(state.cast_fireball(Some((10, 10))), UseResult::UsedUp);
    assert!(!state.objects[0].alive);
    assert_eq!(state.objects[0].fighter.unwrap().hp, 0);
    assert_eq!(state.objects[0].fighter.unwrap().xp, 50);
    assert_eq!(state.objects[1].fighter.unwrap().hp, 1);
    assert_eq!(state.messages.text(2), "You died!");
}

#[test]
fn fireball_reaches_three_tiles_and_no_further() {
    let mut state = cellar();
    state.objects.push(spawn_monster(Monster::Orc, 53, 50));
    state.objects.push(spawn_monster(Monster::Orc, 54, 50));
    state.objects.push(spawn_monster(Monster::Orc, 52, 52));
    state.objects.push(spawn_monster(Monster::Orc, 52, 53));
    state.objects.push(spawn_item(Item::Heal, 50, 50));
    assert_eq!(state.cast_fireball(Some((50, 50))), UseResult::UsedUp);
    let hp: Vec<i32> = state.objects[1..5].iter().map(|object| object.fighter.unwrap().hp).collect();
    assert_eq!(hp, vec![8, 20, 8, 20]);
    assert_eq!(state.objects[0].fighter.unwrap().hp, 30);
    assert_eq!(state.objects[5].name, "healing potion");
    assert_eq!(state.messages.len(), 3);
}

#[test]
fn fireball_without_tile_is_cancelled() {
    let mut state = cellar();
    state.objects.push(monster_with(Monster::Orc, 11, 10, 10));
    state.inventory.push(spawn_item(Item::Fireball, 0, 0));
    state.use_item(0, Aim::Nothing);
    assert_eq!(state.inventory.len(), 1);
    assert_eq!(state.objects[1].fighter.unwrap().hp, 10);
    assert_eq!(log_of(&state), vec![(String::from("Cancelled"), white())]);
    assert_eq!(state.cast_fireball(None), UseResult::Cancelled);
}

#[test]
fn equipment_and_other_things_cannot_be_used() {
    let mut state = cellar();
    state.inventory.push(spawn_item(Item::Equipment, 0, 0));
    state.inventory.push(spawn_monster(Monster::Orc, 0, 0));
    assert_eq!(state.begin_use(0), Targeting::Nothing);
    state.use_item(0, Aim::Nothing);
    state.use_item(1, Aim::Nothing);
    assert_eq!(state.inventory.len(), 2);
    assert_eq!(
        log_of(&state),
        vec![
            (String::from("The sword cannot be used."), white()),
            (String::from("The orc cannot be used."), white()),
        ]
    );
}

#[test]
fn used_item_leaves_its_slot_only() {
    let mut state = cellar();
    state.objects[0].fighter.as_mut().unwrap().hp = 1;
    state.inventory.push(spawn_item(Item::Confuse, 0, 0));
    state.inventory.push(spawn_item(Item::Heal, 0, 0));
    state.inventory.push(spawn_item(Item::Fireball, 0, 0));
    state.use_item(1, Aim::Nothing);
    let carried: Vec<&str> = state.inventory.iter().map(|object| object.name.as_str()).collect();
    assert_eq!(carried, vec!["scroll of confusion", "scroll of fireball"]);
}

#[test]
fn player_strikes_and_is_rewarded() {
    let mut state = cellar();
    state.objects.push(spawn_monster(Monster::Troll, 11, 10));
    state.strike(1, 29);
    assert_eq!(state.objects[1].fighter.unwrap().hp, 1);
    assert_eq!(state.objects[0].fighter.unwrap().xp, 0);
    state.strike(1, 1);
    assert_eq!(state.objects[0].fighter.unwrap().xp, 100);
    state.reward_player(11);
    assert_eq!(state.objects[0].fighter.unwrap().xp, 111);
    state.note("hello", red());
    assert_eq!(state.messages.text(state.messages.len() - 1), "hello");
}

#[test]
fn monster_is_found_on_its_tile() {
    let mut state = cellar();
    state.objects.push(spawn_item(Item::Heal, 12, 12));
    state.objects.push(spawn_monster(Monster::Orc, 12, 12));
    state.objects.push(spawn_monster(Monster::Troll, 12, 12));
    assert_eq!(state.target_monster(12, 12), Some(2));
    assert_eq!(state.target_monster(10, 10), None);
    assert_eq!(state.target_monster(13, 12), None);
}

#[test]
fn left_click_in_view_and_range_chooses_the_tile() {
    let mut state = cellar();
    state.camera_pos = (5, 3);
    state.mouse = Mouse { cx: 8, cy: 9, lbutton_pressed: true, rbutton_pressed: false };
    assert_eq!(state.target_tile(None, false), Targeted::Chosen(13, 12));
    assert_eq!(state.target_tile(Some(8), false), Targeted::Chosen(13, 12));
    assert_eq!(state.target_tile(Some(4), false), Targeted::Chosen(13, 12));
    assert_eq!(state.target_tile(Some(3), false), Targeted::Pending);
    assert_eq!(state.target_tile(Some(3), true), Targeted::Cancelled);
    assert_eq!(state.target_tile(Some(-1), false), Targeted::Pending);
    state.fov[13][12] = false;
    assert_eq!(state.target_tile(None, false), Targeted::Pending);
    state.mouse.rbutton_pressed = true;
    assert_eq!(state.target_tile(None, false), Targeted::Cancelled);
}

#[test]
fn click_decides_before_cancel() {
    let mut state = cellar();
    state.mouse = Mouse { cx: 12, cy: 12, lbutton_pressed: true, rbutton_pressed: true };
    assert_eq!(state.target_tile(None, true), Targeted::Chosen(12, 12));
    state.mouse.lbutton_pressed = false;
    assert_eq!(state.target_tile(None, false), Targeted::Cancelled);
    state.mouse.rbutton_pressed = false;
    assert_eq!(state.target_tile(None, false), Targeted::Pending);
    assert_eq!(state.target_tile(None, true), Targeted::Cancelled);
}

#[test]
fn click_off_the_map_chooses_nothing() {
    let mut state = cellar();
    state.camera_pos = (20, 57);
    state.mouse = Mouse { cx: 80, cy: 0, lbutton_pressed: true, rbutton_pressed: false };
    assert_eq!(state.target_tile(None, false), Targeted::Pending);
    state.mouse = Mouse { cx: -30, cy: 0, lbutton_pressed: true, rbutton_pressed: false };
    assert_eq!(state.target_tile(None, false), Targeted::Pending);
    state.mouse = Mouse { cx: i32::MAX, cy: i32::MAX, lbutton_pressed: true, rbutton_pressed: false };
    assert_eq!(state.target_tile(Some(i32::MAX), false), Targeted::Pending);
}

#[test]
fn level_costs_base_and_factor_times_level() {
    let mut state = cellar();
    // at level 1 the next level costs 200 + 1 * 150
    state.objects[0].fighter.as_mut().unwrap().xp = 349;
    assert!(!state.level_up_due());
    assert!(!state.level_up(Boost::Strength));
    assert_eq!(state.objects[0].level, 1);
    assert_eq!(state.objects[0].fighter.unwrap().xp, 349);
    assert_eq!(state.messages.len(), 0);
    state.objects[0].fighter.as_mut().unwrap().xp = 350;
    assert!(state.level_up_due());
    assert!(state.level_up(Boost::Strength));
    assert_eq!(state.objects[0].level, 2);
    assert_eq!(state.objects[0].fighter.unwrap().xp, 0);
    assert_eq!(state.objects[0].fighter.unwrap().power, 6);
    assert_eq!(
        log_of(&state),
        vec![(String::from("Your battle skills grow stronger! You reached level 2!"), yellow())]
    );
}

#[test]
fn level_up_keeps_what_is_left_over() {
    let mut state = cellar();
    state.objects[0].fighter.as_mut().unwrap().xp = 410;
    assert!(state.level_up(Boost::Agility));
    assert_eq!(state.objects[0].level, 2);
    assert_eq!(state.objects[0].fighter.unwrap().xp, 60);
    assert_eq!(state.objects[0].fighter.unwrap().defense, 3);
    // level 2 costs 500
    assert!(!state.level_up(Boost::Agility));
    state.objects[0].fighter.as_mut().unwrap().xp = 1200;
    assert!(state.level_up(Boost::Agility));
    assert_eq!(state.objects[0].fighter.unwrap().xp, 700);
    assert!(state.level_up(Boost::Agility));
    assert_eq!(state.objects[0].fighter.unwrap().xp, 50);
    assert_eq!(state.objects[0].level, 4);
    assert_eq!(state.objects[0].fighter.unwrap().defense, 5);
}

#[test]
fn level_at_a_threshold_of_two_hundred() {
    // where the level counts from nothing, the threshold is the base of 200
    let mut state = cellar();
    state.objects[0].level = 0;
    state.objects[0].fighter.as_mut().unwrap().xp = 200;
    assert!(state.level_up(Boost::Constitution));
    assert_eq!(state.objects[0].level, 1);
    assert_eq!(state.objects[0].fighter.unwrap().xp, 0);
    let mut state = cellar();
    state.objects[0].level = 0;
    state.objects[0].fighter.as_mut().unwrap().xp = 260;
    assert!(state.level_up(Boost::Constitution));
    assert_eq!(state.objects[0].level, 1);
    assert_eq!(state.objects[0].fighter.unwrap().xp, 60);
    let mut state = cellar();
    state.objects[0].level = 0;
    state.objects[0].fighter.as_mut().unwrap().xp = 199;
    assert!(!state.level_up(Boost::Constitution));
}

#[test]
fn constitution_raises_hit_points_now_and_at_most() {
    let mut state = cellar();
    state.objects[0].fighter.as_mut().unwrap().hp = 7;
    state.objects[0].fighter.as_mut().unwrap().xp = 350;
    assert!(state.level_up(Boost::Constitution));
    let fighter = state.objects[0].fighter.unwrap();
    assert_eq!((fighter.hp, fighter.max_hp, fighter.power, fighter.defense), (27, 50, 5, 2));
    assert!(state.is_sound());
}

#[test]
fn who_cannot_fight_gains_no_level() {
    let mut state = cellar();
    state.objects[0].fighter = None;
    assert!(!state.level_up_due());
    assert!(!state.level_up(Boost::Strength));
    assert!(state.level_up_options().is_empty());
}

#[test]
fn boosts_are_offered_with_their_values() {
    let state = cellar();
    assert_eq!(
        state.level_up_options(),
        vec![
            String::from("Constitution (+20 HP, from 30)"),
            String::from("Strength (+1 attack, from 5)"),
            String::from("Agility (+1 defense, from 2)"),
        ]
    );
    assert_eq!(boost_for(0), Some(Boost::Constitution));
    assert_eq!(boost_for(1), Some(Boost::Strength));
    assert_eq!(boost_for(2), Some(Boost::Agility));
    assert_eq!(boost_for(3), None);
}

#[test]
fn player_index_is_zero() {
    assert_eq!(PLAYER, 0);
}
