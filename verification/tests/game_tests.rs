use roguelike::ai::{Cell, Path, Turn, PATH_LIMIT};
use roguelike::color::{red, white};
use roguelike::game::{mut_two, GameState, Mouse, PLAYER};
use roguelike::map::{create_room, spawn_item, spawn_monster, Monster, Rect, Tile};
use roguelike::message::Messages;
use roguelike::object::{Ai, DeathCallback, Fighter, Item, Object};

fn game_hero(x: i32, y: i32) -> Object {
    let mut player = Object::new(x, y, '@', "player", white(), true);
    player.alive = true;
    player.fighter = Some(Fighter {
        max_hp: 30,
        hp: 30,
        defense: 2,
        power: 5,
        xp: 0,
        on_death: DeathCallback::Player,
    });
    player
}

/// One big room with the player at (10, 10), everything in view.
fn hall() -> GameState {
    let mut map = vec![vec![Tile::wall(); 100]; 100];
    create_room(Rect::new(0, 0, 99, 99), &mut map);
    GameState {
        objects: vec![game_hero(10, 10)],
        map,
        messages: Messages::new(50),
        inventory: Vec::new(),
        dungeon_level: 1,
        fov: vec![vec![true; 100]; 100],
        camera_pos: (0, 0),
        previous_player_pos: (-1, -1),
        mouse: Mouse { cx: 0, cy: 0, lbutton_pressed: false, rbutton_pressed: false },
        disable_fov: false,
    }
}

fn log_texts(state: &GameState) -> Vec<String> {
    (0..state.messages.len()).map(|i| state.messages.text(i).clone()).collect()
}

#[test]
fn mut_two_borrows_in_either_order() {
    let mut items = vec![10, 20, 30, 40];
    {
        let (a, b) = mut_two(1, 3, &mut items);
        assert_eq!((*a, *b), (20, 40));
        *a += 1;
        *b += 2;
    }
    assert_eq!(items, vec![10, 21, 30, 42]);
    {
        let (a, b) = mut_two(3, 0, &mut items);
        assert_eq!((*a, *b), (42, 10));
        *a = 0;
        *b = 1;
    }
    assert_eq!(items, vec![1, 21, 30, 0]);
}

#[test]
fn hall_is_sound() {
    let state = hall();
    assert!(state.is_sound());
    assert!(state.xp_fits());
}

#[test]
fn unsound_states_are_told() {
    let mut state = hall();
    state.objects[0].x = 100;
    assert!(!state.is_sound());
    let mut state = hall();
    state.objects[0].fighter.as_mut().unwrap().hp = 31;
    assert!(!state.is_sound());
    let mut state = hall();
    state.objects[0].fighter.as_mut().unwrap().xp = -1;
    assert!(!state.is_sound());
    let mut state = hall();
    state.objects.clear();
    assert!(!state.is_sound());
    let mut state = hall();
    state.map.pop();
    assert!(!state.is_sound());
    let mut state = hall();
    state.fov[3].pop();
    assert!(!state.is_sound());
    let mut state = hall();
    state.messages = Messages::new(0);
    assert!(!state.is_sound());
    let mut state = hall();
    state.camera_pos = (21, 0);
    assert!(!state.is_sound());
    let mut state = hall();
    state.camera_pos = (20, 57);
    assert!(state.is_sound());
    let mut state = hall();
    let mut broken = spawn_monster(Monster::Orc, -3, 500);
    broken.fighter.as_mut().unwrap().power = -1;
    state.inventory.push(broken);
    assert!(!state.is_sound());
}

#[test]
fn experience_that_does_not_fit_is_told() {
    let mut state = hall();
    state.objects[0].fighter.as_mut().unwrap().xp = i32::MAX - 34;
    state.objects.push(spawn_monster(Monster::Orc, 3, 3));
    assert!(!state.xp_fits());
    state.objects[0].fighter.as_mut().unwrap().xp = i32::MAX - 35;
    assert!(state.xp_fits());
}

#[test]
fn tiles_off_the_map_are_blocked() {
    let state = hall();
    assert!(state.is_blocked(-1, 5));
    assert!(state.is_blocked(5, 100));
    assert!(state.is_blocked(0, 0));
    assert!(state.is_blocked(10, 10));
    assert!(!state.is_blocked(11, 10));
}

#[test]
fn object_moves_unless_blocked() {
    let mut state = hall();
    state.objects.push(spawn_monster(Monster::Orc, 12, 10));
    state.objects.push(spawn_item(Item::Heal, 10, 11));
    state.move_object_by(PLAYER, 1, 0);
    assert_eq!(state.objects[0].pos(), (11, 10));
    state.move_object_by(PLAYER, 1, 0);
    assert_eq!(state.objects[0].pos(), (11, 10));
    state.move_object_by(PLAYER, -1, 1);
    assert_eq!(state.objects[0].pos(), (10, 11));
    state.move_object_by(1, 0, 0);
    assert_eq!(state.objects[1].pos(), (12, 10));
}

#[test]
fn object_does_not_leave_the_map() {
    let mut state = hall();
    state.objects[0].set_pos(1, 1);
    state.move_object_by(PLAYER, -1, 0);
    assert_eq!(state.objects[0].pos(), (1, 1));
    state.move_object_by(PLAYER, -5, 0);
    assert_eq!(state.objects[0].pos(), (1, 1));
    state.move_object_by(PLAYER, i32::MAX, i32::MIN);
    assert_eq!(state.objects[0].pos(), (1, 1));
}

#[test]
fn step_toward_target_is_rounded() {
    for (target, step) in [
        ((20, 10), (1, 0)),
        ((10, 3), (0, -1)),
        ((13, 11), (1, 0)),
        ((12, 12), (1, 1)),
        ((11, 12), (0, 1)),
        ((8, 9), (-1, 0)),
        ((9, 9), (-1, -1)),
        ((10, 10), (0, 0)),
        ((14, 17), (0, 1)),
        ((15, 17), (1, 1)),
        ((66, 107), (0, 1)),
        ((67, 107), (1, 1)),
    ] {
        let mut state = hall();
        state.move_towards(PLAYER, target.0, target.1);
        assert_eq!(state.objects[0].pos(), (10 + step.0, 10 + step.1), "toward {:?}", target);
    }
}

#[test]
fn player_steps_onto_free_tile() {
    let mut state = hall();
    state.objects.push(spawn_item(Item::Heal, 11, 10));
    state.player_move_or_attack(1, 0);
    assert_eq!(state.objects[0].pos(), (11, 10));
    assert_eq!(state.messages.len(), 0);
}

#[test]
fn player_attacks_fighter_instead_of_moving() {
    let mut state = hall();
    state.objects.push(spawn_monster(Monster::Orc, 11, 10));
    state.player_move_or_attack(1, 0);
    assert_eq!(state.objects[0].pos(), (10, 10));
    assert_eq!(state.objects[1].fighter.unwrap().hp, 15);
    assert_eq!(log_texts(&state), vec![String::from("player attacks orc for 5 hit points.")]);
}

#[test]
fn player_walks_over_corpses() {
    let mut state = hall();
    let mut orc = spawn_monster(Monster::Orc, 11, 10);
    orc.fighter.as_mut().unwrap().hp = 1;
    state.objects.push(orc);
    state.player_move_or_attack(1, 0);
    assert_eq!(state.objects[1].name, "remains of orc");
    assert_eq!(state.objects[0].fighter.unwrap().xp, 35);
    assert_eq!(state.objects[0].pos(), (10, 10));
    state.player_move_or_attack(1, 0);
    assert_eq!(state.objects[0].pos(), (11, 10));
}

#[test]
fn player_attacks_the_first_fighter_on_the_tile() {
    let mut state = hall();
    state.objects.push(spawn_item(Item::Heal, 10, 9));
    state.objects.push(spawn_monster(Monster::Troll, 10, 9));
    state.objects.push(spawn_monster(Monster::Orc, 10, 9));
    assert_eq!(state.fighter_at(10, 9), Some(2));
    assert_eq!(state.fighter_at(10, 10), Some(0));
    assert_eq!(state.fighter_at(50, 50), None);
    state.player_move_or_attack(0, -1);
    assert_eq!(state.objects[2].fighter.unwrap().hp, 27);
    assert_eq!(state.objects[3].fighter.unwrap().hp, 20);
}

#[test]
fn player_does_not_walk_into_rock() {
    let mut state = hall();
    state.objects[0].set_pos(1, 50);
    state.player_move_or_attack(-1, 0);
    assert_eq!(state.objects[0].pos(), (1, 50));
}

#[test]
fn attack_between_objects_updates_both() {
    let mut state = hall();
    state.objects.push(spawn_monster(Monster::Troll, 11, 10));
    state.attack(1, PLAYER);
    assert_eq!(state.objects[0].fighter.unwrap().hp, 24);
    assert_eq!(log_texts(&state), vec![String::from("troll attacks player for 6 hit points.")]);
    state.attack(PLAYER, 1);
    assert_eq!(state.objects[1].fighter.unwrap().hp, 27);
}

#[test]
fn field_of_view_is_looked_up() {
    let mut state = hall();
    state.fov[4][5] = false;
    assert!(!state.is_in_fov(4, 5));
    assert!(state.is_in_fov(5, 4));
    assert!(!state.is_in_fov(-1, 4));
    assert!(!state.is_in_fov(4, 100));
}

#[test]
fn basic_monster_out_of_sight_does_nothing() {
    let mut state = hall();
    state.objects.push(spawn_monster(Monster::Orc, 11, 10));
    state.fov[11][10] = false;
    assert_eq!(state.ai_step(1, (0, 0)), Turn::Done);
    assert_eq!(state.objects[0].fighter.unwrap().hp, 30);
    assert_eq!(state.objects[1].pos(), (11, 10));
    assert_eq!(state.objects[1].ai, Some(Ai::Basic));
}

#[test]
fn basic_monster_next_to_player_attacks() {
    let mut state = hall();
    state.objects.push(spawn_monster(Monster::Orc, 11, 10));
    assert_eq!(state.ai_step(1, (1, 1)), Turn::Done);
    assert_eq!(state.objects[0].fighter.unwrap().hp, 28);
    assert_eq!(state.objects[1].pos(), (11, 10));
    assert_eq!(state.objects[1].ai, Some(Ai::Basic));
}

#[test]
fn basic_monster_far_from_player_asks_for_a_path() {
    let mut state = hall();
    state.objects.push(spawn_monster(Monster::Orc, 11, 11));
    state.objects.push(spawn_monster(Monster::Orc, 20, 10));
    assert_eq!(state.ai_step(1, (0, 0)), Turn::Chase);
    assert_eq!(state.ai_step(2, (0, 0)), Turn::Chase);
    assert_eq!(state.ai_basic(2), Turn::Chase);
    assert_eq!(state.objects[0].fighter.unwrap().hp, 30);
    assert_eq!(state.objects[1].pos(), (11, 11));
}

#[test]
fn basic_monster_spares_a_dead_player() {
    let mut state = hall();
    state.objects.push(spawn_monster(Monster::Orc, 11, 10));
    state.objects[0].fighter.as_mut().unwrap().hp = 0;
    state.objects[0].alive = false;
    assert_eq!(state.ai_step(1, (0, 0)), Turn::Done);
    assert_eq!(state.messages.len(), 0);
}

#[test]
fn object_without_decisions_takes_no_turn() {
    let mut state = hall();
    state.objects.push(spawn_item(Item::Heal, 11, 10));
    assert_eq!(state.ai_step(1, (1, 0)), Turn::Done);
    assert_eq!(state.objects[1].pos(), (11, 10));
    assert!(state.objects[1].ai.is_none());
}

#[test]
fn confused_monster_stumbles_and_counts_down() {
    let mut state = hall();
    let mut orc = spawn_monster(Monster::Orc, 20, 20);
    orc.ai = Some(Ai::Confused { previous_ai: Box::new(Ai::Basic), num_turns: 2 });
    state.objects.push(orc);
    assert_eq!(state.ai_step(1, (1, 0)), Turn::Done);
    assert_eq!(state.objects[1].pos(), (21, 20));
    assert_eq!(state.objects[1].ai, Some(Ai::Confused { previous_ai: Box::new(Ai::Basic), num_turns: 1 }));
    state.ai_step(1, (0, -1));
    assert_eq!(state.objects[1].pos(), (21, 19));
    assert_eq!(state.objects[1].ai, Some(Ai::Confused { previous_ai: Box::new(Ai::Basic), num_turns: 0 }));
    assert_eq!(state.messages.len(), 0);
}

#[test]
fn confused_monster_does_not_stumble_into_what_blocks() {
    let mut state = hall();
    let mut orc = spawn_monster(Monster::Orc, 11, 10);
    orc.ai = Some(Ai::Confused { previous_ai: Box::new(Ai::Basic), num_turns: 5 });
    state.objects.push(orc);
    state.ai_step(1, (-1, 0));
    assert_eq!(state.objects[1].pos(), (11, 10));
    assert_eq!(state.objects[0].fighter.unwrap().hp, 30);
    assert_eq!(state.objects[1].ai, Some(Ai::Confused { previous_ai: Box::new(Ai::Basic), num_turns: 4 }));
}

#[test]
fn confusion_lasts_its_turns_and_ends_with_one_line() {
    let n = 10;
    let mut state = hall();
    let mut orc = spawn_monster(Monster::Orc, 50, 50);
    orc.ai = Some(Ai::Confused { previous_ai: Box::new(Ai::Basic), num_turns: n });
    state.objects.push(orc);
    state.fov[50][50] = false;
    for turn in 0..n + 1 {
        state.ai_step(1, (0, 0));
        assert_eq!(
            state.objects[1].ai,
            Some(Ai::Confused { previous_ai: Box::new(Ai::Basic), num_turns: n - 1 - turn })
        );
        assert_eq!(state.messages.len(), 0);
    }
    state.ai_step(1, (0, 0));
    assert_eq!(state.objects[1].ai, Some(Ai::Basic));
    assert_eq!(log_texts(&state), vec![String::from("The orc is no longer confused!")]);
    assert_eq!(state.messages.color(0), red());
    for _ in 0..5 {
        state.ai_step(1, (0, 0));
    }
    assert_eq!(state.messages.len(), 1);
    assert_eq!(state.objects[1].ai, Some(Ai::Basic));
}

#[test]
fn confusion_gives_way_to_what_was_before() {
    let mut state = hall();
    let mut orc = spawn_monster(Monster::Orc, 50, 50);
    let inner = Ai::Confused { previous_ai: Box::new(Ai::Basic), num_turns: 7 };
    orc.ai = Some(Ai::Confused { previous_ai: Box::new(inner.clone()), num_turns: -1 });
    state.objects.push(orc);
    let moved = state.ai_confused(1, Box::new(inner.clone()), -1, (1, 0));
    assert_eq!(moved, inner);
    assert_eq!(state.objects[1].pos(), (50, 50));
    assert_eq!(state.messages.len(), 1);
    let stays = state.ai_confused(1, Box::new(Ai::Basic), 0, (1, 0));
    assert_eq!(stays, Ai::Confused { previous_ai: Box::new(Ai::Basic), num_turns: -1 });
    assert_eq!(state.objects[1].pos(), (51, 50));
}

#[test]
fn confused_monster_stumbles_at_random() {
    let mut state = hall();
    let mut orc = spawn_monster(Monster::Orc, 50, 50);
    orc.ai = Some(Ai::Confused { previous_ai: Box::new(Ai::Basic), num_turns: 1000 });
    state.objects.push(orc);
    let mut rng = rand::thread_rng();
    let mut places = Vec::new();
    for turn in 0..300 {
        let before = state.objects[1].pos();
        assert_eq!(state.ai_take_turn(1, &mut rng), Turn::Done);
        let after = state.objects[1].pos();
        let step = ((after.0 - before.0).abs(), (after.1 - before.1).abs());
        assert!(step == (0, 0) || step == (1, 0) || step == (0, 1));
        assert_eq!(
            state.objects[1].ai,
            Some(Ai::Confused { previous_ai: Box::new(Ai::Basic), num_turns: 999 - turn })
        );
        places.push(after);
    }
    places.sort();
    places.dedup();
    assert!(places.len() > 1);
}

#[test]
fn basic_monster_takes_its_turn_without_chance() {
    let mut state = hall();
    state.objects.push(spawn_monster(Monster::Orc, 11, 10));
    state.objects.push(spawn_monster(Monster::Orc, 30, 10));
    let mut rng = rand::thread_rng();
    assert_eq!(state.ai_take_turn(1, &mut rng), Turn::Done);
    assert_eq!(state.ai_take_turn(2, &mut rng), Turn::Chase);
    assert_eq!(state.objects[0].fighter.unwrap().hp, 28);
}

#[test]
fn cells_follow_the_tiles() {
    let mut state = hall();
    state.map[5][5] = Tile { blocked: true, block_sight: false, explored: false };
    state.map[5][6] = Tile { blocked: false, block_sight: true, explored: true };
    let cells = state.fov_cells();
    assert_eq!(cells.len(), 100);
    assert!(cells.iter().all(|column| column.len() == 100));
    assert_eq!(cells[0][0], Cell { transparent: false, walkable: false });
    assert_eq!(cells[1][1], Cell { transparent: true, walkable: true });
    assert_eq!(cells[5][5], Cell { transparent: true, walkable: false });
    assert_eq!(cells[5][6], Cell { transparent: false, walkable: true });
}

#[test]
fn path_cells_wall_off_other_blockers() {
    let mut state = hall();
    state.objects.push(spawn_monster(Monster::Orc, 20, 20));
    state.objects.push(spawn_monster(Monster::Troll, 15, 15));
    state.objects.push(spawn_item(Item::Heal, 16, 16));
    let cells = state.path_cells(1, PLAYER);
    assert_eq!(cells[15][15], Cell { transparent: true, walkable: false });
    assert_eq!(cells[20][20], Cell { transparent: true, walkable: true });
    assert_eq!(cells[10][10], Cell { transparent: true, walkable: true });
    assert_eq!(cells[16][16], Cell { transparent: true, walkable: true });
    assert_eq!(cells[0][7], Cell { transparent: false, walkable: false });
    let cells = state.path_cells(2, PLAYER);
    assert_eq!(cells[20][20], Cell { transparent: true, walkable: false });
    assert_eq!(cells[15][15], Cell { transparent: true, walkable: true });
}

#[test]
fn path_cells_put_a_wall_where_a_blocker_stands_on_rock() {
    let mut state = hall();
    state.objects.push(spawn_monster(Monster::Orc, 20, 20));
    state.objects.push(spawn_monster(Monster::Troll, 0, 0));
    let cells = state.path_cells(1, PLAYER);
    assert_eq!(cells[0][0], Cell { transparent: true, walkable: false });
}

#[test]
fn short_path_is_walked() {
    let mut state = hall();
    state.objects.push(spawn_monster(Monster::Orc, 20, 20));
    state.move_astar(1, PLAYER, Path { empty: false, len: 24, next: Some((19, 20)) });
    assert_eq!(state.objects[1].pos(), (19, 20));
    state.move_astar(1, PLAYER, Path { empty: false, len: 3, next: None });
    assert_eq!(state.objects[1].pos(), (19, 20));
}

#[test]
fn long_or_missing_path_falls_back_to_a_straight_step() {
    assert_eq!(PATH_LIMIT, 25);
    let mut state = hall();
    state.objects.push(spawn_monster(Monster::Orc, 20, 20));
    state.move_astar(1, PLAYER, Path { empty: false, len: 25, next: Some((50, 50)) });
    assert_eq!(state.objects[1].pos(), (19, 19));
    state.move_astar(1, PLAYER, Path { empty: true, len: 0, next: None });
    assert_eq!(state.objects[1].pos(), (18, 18));
    state.move_astar(1, PLAYER, Path { empty: true, len: 5, next: Some((50, 50)) });
    assert_eq!(state.objects[1].pos(), (17, 17));
}

#[test]
fn straight_step_stops_at_what_blocks() {
    let mut state = hall();
    state.objects.push(spawn_monster(Monster::Orc, 20, 10));
    state.objects.push(spawn_monster(Monster::Orc, 19, 10));
    state.move_astar(1, PLAYER, Path { empty: true, len: 0, next: None });
    assert_eq!(state.objects[1].pos(), (20, 10));
}

#[test]
fn step_off_the_map_is_ignored() {
    let mut state = hall();
    state.objects.push(spawn_monster(Monster::Orc, 20, 20));
    state.move_astar(1, PLAYER, Path { empty: false, len: 2, next: Some((100, 20)) });
    assert_eq!(state.objects[1].pos(), (20, 20));
    state.move_astar(1, PLAYER, Path { empty: false, len: 2, next: Some((5, -1)) });
    assert_eq!(state.objects[1].pos(), (20, 20));
    assert!(state.is_sound());
}
