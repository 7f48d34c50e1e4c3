use roguelike::color::{black, dark_ground, dark_wall, light_ground, light_wall, red, violet, white};
use roguelike::game::{GameState, Mouse, CAMERA_HEIGHT, CAMERA_WIDTH, MSG_HEIGHT, TORCH_RADIUS};
use roguelike::input::{command_for, menu_choice, Command, Key, KeyCode, PlayerAction, Request};
use roguelike::map::{create_room, spawn_item, spawn_monster, Monster, Rect, Tile};
use roguelike::message::Messages;
use roguelike::object::{DeathCallback, Fighter, Item, Object};
use roguelike::view::panel_rows;

fn view_hero(x: i32, y: i32) -> Object {
    let mut player = Object::new(x, y, '@', "player", white(), true);
    player.alive = true;
    player.fighter = Some(Fighter {
        max_hp: 30,
        hp: 30,
        defense: 2,
        power: 5,
        xp: 0,
        on_death: DeathCallback::Player,
    });
    player
}

/// One big room with the player at (10, 10) and nothing in view.
fn cave() -> GameState {
    let mut map = vec![vec![Tile::wall(); 100]; 100];
    create_room(Rect::new(0, 0, 99, 99), &mut map);
    GameState {
        objects: vec![view_hero(10, 10)],
        map,
        messages: Messages::new(50),
        inventory: Vec::new(),
        dungeon_level: 1,
        fov: vec![vec![false; 100]; 100],
        camera_pos: (0, 0),
        previous_player_pos: (-1, -1),
        mouse: Mouse { cx: 0, cy: 0, lbutton_pressed: false, rbutton_pressed: false },
        disable_fov: false,
    }
}

fn key(printable: char) -> Key {
    Key { code: KeyCode::Other, printable, left_alt: false }
}

fn arrow(code: KeyCode) -> Key {
    Key { code, printable: '\0', left_alt: false }
}

fn texts(state: &GameState) -> Vec<String> {
    (0..state.messages.len()).map(|i| state.messages.text(i).clone()).collect()
}

#[test]
fn screen_constants() {
    assert_eq!((CAMERA_WIDTH, CAMERA_HEIGHT), (80, 43));
    assert_eq!(TORCH_RADIUS, 10);
    assert_eq!(MSG_HEIGHT, 6);
}

#[test]
fn camera_centres_on_target() {
    let mut state = cave();
    assert!(state.move_camera(50, 50));
    assert_eq!(state.camera_pos, (10, 29));
    assert!(!state.move_camera(50, 50));
    assert!(state.move_camera(51, 50));
    assert_eq!(state.camera_pos, (11, 29));
}

#[test]
fn camera_stays_on_the_map() {
    let mut state = cave();
    assert!(!state.move_camera(0, 0));
    assert_eq!(state.camera_pos, (0, 0));
    assert!(state.move_camera(99, 99));
    assert_eq!(state.camera_pos, (19, 56));
    state.move_camera(59, 77);
    assert_eq!(state.camera_pos, (19, 56));
    state.move_camera(58, 76);
    assert_eq!(state.camera_pos, (18, 55));
    state.move_camera(i32::MIN, i32::MAX);
    assert_eq!(state.camera_pos, (0, 56));
}

#[test]
fn map_and_screen_coordinates_differ_by_the_camera() {
    let mut state = cave();
    state.camera_pos = (10, 20);
    assert_eq!(state.to_camera_coordinates(10, 20), Some((0, 0)));
    assert_eq!(state.to_camera_coordinates(89, 62), Some((79, 42)));
    assert_eq!(state.to_camera_coordinates(90, 62), None);
    assert_eq!(state.to_camera_coordinates(89, 63), None);
    assert_eq!(state.to_camera_coordinates(9, 20), None);
    assert_eq!(state.to_camera_coordinates(10, 19), None);
    assert_eq!(state.to_camera_coordinates(i32::MIN, i32::MAX), None);
    assert_eq!(state.to_world_coordinates(0, 0), (10, 20));
    assert_eq!(state.to_world_coordinates(5, 7), (15, 27));
}

#[test]
fn frame_asks_for_field_of_view_when_camera_or_player_moved() {
    let mut state = cave();
    state.objects[0].set_pos(50, 50);
    state.previous_player_pos = (50, 50);
    assert!(state.begin_frame());
    assert_eq!(state.camera_pos, (10, 29));
    assert!(!state.begin_frame());
    state.previous_player_pos = (49, 50);
    assert!(state.begin_frame());
    state.previous_player_pos = (50, 50);
    state.objects[0].set_pos(51, 50);
    assert!(state.begin_frame());
    assert_eq!(state.camera_pos, (11, 29));
}

#[test]
fn field_of_view_of_the_wrong_size_is_refused() {
    let mut state = cave();
    assert!(!state.set_fov(vec![vec![true; 100]; 99]));
    assert!(!state.set_fov(vec![vec![true; 101]; 100]));
    let mut ragged = vec![vec![true; 100]; 100];
    ragged[99].pop();
    assert!(!state.set_fov(ragged));
    assert!(!state.is_in_fov(5, 5));
    let mut fov = vec![vec![false; 100]; 100];
    fov[5][5] = true;
    assert!(state.set_fov(fov));
    assert!(state.is_in_fov(5, 5));
    assert!(!state.is_in_fov(5, 6));
}

#[test]
fn tiles_in_view_are_lit_and_explored() {
    let mut state = cave();
    state.fov[0][0] = true;
    state.fov[1][1] = true;
    let colors = state.render_tiles();
    assert_eq!(colors.len(), 80);
    assert!(colors.iter().all(|column| column.len() == 43));
    assert_eq!(colors[0][0], light_wall());
    assert_eq!(colors[1][1], light_ground());
    assert_eq!(colors[0][1], black());
    assert_eq!(colors[2][2], black());
    assert!(state.map[0][0].explored && state.map[1][1].explored);
    assert!(!state.map[0][1].explored && !state.map[2][2].explored);
    assert!(state.is_explored(1, 1));
    assert!(!state.is_explored(2, 2));
    assert!(!state.is_explored(-1, 2));
}

#[test]
fn explored_tiles_stay_explored_out_of_view() {
    let mut state = cave();
    state.fov[0][0] = true;
    state.fov[1][1] = true;
    state.render_tiles();
    state.fov = vec![vec![false; 100]; 100];
    let colors = state.render_tiles();
    assert_eq!(colors[0][0], dark_wall());
    assert_eq!(colors[1][1], dark_ground());
    assert_eq!(colors[2][2], black());
    assert!(state.map[0][0].explored && state.map[1][1].explored);
    state.camera_pos = (20, 57);
    state.render_tiles();
    assert!(state.map[0][0].explored && state.map[1][1].explored);
}

#[test]
fn explored_never_turns_false() {
    let mut state = cave();
    let mut rounds: Vec<Vec<Vec<bool>>> = Vec::new();
    for round in 0..6 {
        let mut fov = vec![vec![false; 100]; 100];
        for x in 0..100 {
            for y in 0..100 {
                fov[x][y] = (x * 7 + y * 3 + round * 5) % 4 == 0;
            }
        }
        assert!(state.set_fov(fov));
        state.objects[0].set_pos(5 + 15 * round as i32, 5 + 14 * round as i32);
        state.begin_frame();
        state.render_tiles();
        rounds.push(state.map.iter().map(|column| column.iter().map(|tile| tile.explored).collect()).collect());
    }
    for pair in rounds.windows(2) {
        for x in 0..100 {
            for y in 0..100 {
                assert!(!pair[0][x][y] || pair[1][x][y]);
            }
        }
    }
    assert!(rounds[5].iter().flatten().any(|explored| *explored));
}

#[test]
fn every_tile_in_view_is_explored() {
    let mut state = cave();
    state.camera_pos = (10, 20);
    state.fov[99][99] = true;
    state.fov[0][5] = true;
    state.fov[50][50] = true;
    let colors = state.render_tiles();
    assert_eq!(colors[40][30], light_ground());
    assert_eq!(colors[0][0], black());
    for x in 0..100 {
        for y in 0..100 {
            let seen = (x, y) == (99, 99) || (x, y) == (0, 5) || (x, y) == (50, 50);
            assert_eq!(state.map[x][y].explored, seen);
        }
    }
}

#[test]
fn exploring_marks_what_is_seen_and_keeps_the_rest() {
    let mut state = cave();
    state.map[3][3].explored = true;
    state.fov[4][4] = true;
    state.explore();
    assert!(state.map[3][3].explored && state.map[4][4].explored);
    assert!(!state.map[5][5].explored);
    assert_eq!(state.map[4][4].blocked, false);
    assert_eq!(state.map[0][0].blocked, true);
}

#[test]
fn without_fog_every_tile_is_drawn_but_not_explored() {
    let mut state = cave();
    state.disable_fov = true;
    let colors = state.render_tiles();
    assert_eq!(colors[0][0], dark_wall());
    assert_eq!(colors[1][1], dark_ground());
    assert!(!state.map[1][1].explored);
}

#[test]
fn shown_objects_are_drawn_with_blockers_last() {
    let mut state = cave();
    state.objects.push(spawn_item(Item::Heal, 11, 10));
    state.objects.push(spawn_monster(Monster::Orc, 12, 10));
    state.objects.push(spawn_item(Item::Confuse, 13, 10));
    state.objects.push(spawn_monster(Monster::Troll, 14, 10));
    state.objects.push(spawn_item(Item::Fireball, 15, 10));
    for x in 10..15 {
        state.fov[x][10] = true;
    }
    assert_eq!(state.draw_order(), vec![1, 3, 0, 2, 4]);
    state.fov[12][10] = false;
    assert_eq!(state.draw_order(), vec![1, 3, 0, 4]);
    // what is always visible is shown on a tile that was explored
    state.map[15][10].explored = true;
    assert_eq!(state.draw_order(), vec![1, 3, 5, 0, 4]);
    assert!(state.is_shown(5) && !state.is_shown(2));
    state.disable_fov = true;
    assert_eq!(state.draw_order(), vec![1, 3, 5, 0, 2, 4]);
}

#[test]
fn names_under_the_mouse_are_joined() {
    let mut state = cave();
    state.camera_pos = (2, 3);
    state.mouse = Mouse { cx: 10, cy: 7, lbutton_pressed: false, rbutton_pressed: false };
    assert_eq!(state.get_names_under_mouse(), "");
    state.objects.push(spawn_monster(Monster::Orc, 12, 10));
    state.objects.push(spawn_item(Item::Heal, 12, 10));
    state.objects.push(spawn_item(Item::Confuse, 12, 11));
    state.objects.push(spawn_monster(Monster::Troll, 12, 10));
    assert_eq!(state.get_names_under_mouse(), "");
    state.fov[12][10] = true;
    assert_eq!(state.get_names_under_mouse(), "orc, healing potion, troll");
    state.fov[12][10] = false;
    state.map[12][10].explored = true;
    assert_eq!(state.get_names_under_mouse(), "healing potion");
    state.disable_fov = true;
    assert_eq!(state.get_names_under_mouse(), "orc, healing potion, troll");
    state.mouse.cy = 8;
    assert_eq!(state.get_names_under_mouse(), "scroll of confusion");
}

#[test]
fn hit_points_of_the_player_are_shown() {
    let mut state = cave();
    state.objects[0].fighter.as_mut().unwrap().hp = 12;
    assert_eq!(state.player_hp(), (12, 30));
    state.objects[0].fighter = None;
    assert_eq!(state.player_hp(), (0, 0));
}

#[test]
fn keys_stand_for_commands() {
    assert_eq!(command_for(key('c')), Command::Character);
    assert_eq!(command_for(key('g')), Command::PickUp);
    assert_eq!(command_for(key('i')), Command::Inventory);
    assert_eq!(command_for(key('d')), Command::Drop);
    assert_eq!(command_for(key('<')), Command::Descend);
    assert_eq!(command_for(key('.')), Command::Wait);
    assert_eq!(command_for(arrow(KeyCode::Left)), Command::Left);
    assert_eq!(command_for(arrow(KeyCode::Right)), Command::Right);
    assert_eq!(command_for(arrow(KeyCode::Up)), Command::Up);
    assert_eq!(command_for(arrow(KeyCode::Down)), Command::Down);
    assert_eq!(command_for(arrow(KeyCode::Enter)), Command::Nothing);
    assert_eq!(command_for(key('x')), Command::Nothing);
    assert_eq!(command_for(key('C')), Command::Nothing);
    // the character decides before the code
    assert_eq!(command_for(Key { code: KeyCode::Left, printable: 'g', left_alt: false }), Command::PickUp);
}

#[test]
fn arrows_move_the_player_and_take_the_turn() {
    let mut state = cave();
    assert_eq!(state.handle_keys(arrow(KeyCode::Right)), (PlayerAction::TookTurn, Request::Nothing));
    assert_eq!(state.objects[0].pos(), (11, 10));
    assert_eq!(state.previous_player_pos, (10, 10));
    assert_eq!(state.handle_keys(arrow(KeyCode::Down)), (PlayerAction::TookTurn, Request::Nothing));
    assert_eq!(state.objects[0].pos(), (11, 11));
    assert_eq!(state.previous_player_pos, (11, 10));
    state.handle_keys(arrow(KeyCode::Left));
    state.handle_keys(arrow(KeyCode::Up));
    assert_eq!(state.objects[0].pos(), (10, 10));
    assert_eq!(state.previous_player_pos, (10, 11));
}

#[test]
fn arrow_into_a_fighter_attacks_it() {
    let mut state = cave();
    state.objects.push(spawn_monster(Monster::Orc, 10, 9));
    assert_eq!(state.handle_keys(arrow(KeyCode::Up)), (PlayerAction::TookTurn, Request::Nothing));
    assert_eq!(state.objects[0].pos(), (10, 10));
    assert_eq!(state.previous_player_pos, (10, 10));
    assert_eq!(state.objects[1].fighter.unwrap().hp, 15);
    assert_eq!(texts(&state), vec![String::from("player attacks orc for 5 hit points.")]);
}

#[test]
fn waiting_takes_the_turn() {
    let mut state = cave();
    assert_eq!(state.handle_keys(key('.')), (PlayerAction::TookTurn, Request::Nothing));
    assert_eq!(state.objects[0].pos(), (10, 10));
    assert_eq!(state.previous_player_pos, (10, 10));
}

#[test]
fn menus_are_left_to_the_caller() {
    let mut state = cave();
    assert_eq!(state.handle_keys(key('c')), (PlayerAction::DidntTakeTurn, Request::ShowCharacter));
    assert_eq!(state.handle_keys(key('i')), (PlayerAction::DidntTakeTurn, Request::ChooseItemToUse));
    assert_eq!(state.handle_keys(key('d')), (PlayerAction::DidntTakeTurn, Request::ChooseItemToDrop));
    assert_eq!(state.handle_keys(key('q')), (PlayerAction::DidntTakeTurn, Request::Nothing));
    assert_eq!(state.messages.len(), 0);
}

#[test]
fn dead_player_does_nothing() {
    let mut state = cave();
    state.objects[0].alive = false;
    state.objects.push(spawn_item(Item::Heal, 10, 10));
    for pressed in [arrow(KeyCode::Right), key('g'), key('.'), key('c'), key('<')] {
        assert_eq!(state.handle_keys(pressed), (PlayerAction::DidntTakeTurn, Request::Nothing));
    }
    assert_eq!(state.objects[0].pos(), (10, 10));
    assert_eq!(state.previous_player_pos, (-1, -1));
    assert_eq!(state.objects.len(), 2);
    assert!(!state.monsters_act(PlayerAction::TookTurn));
}

#[test]
fn item_under_the_player_is_picked_up() {
    let mut state = cave();
    state.objects.push(spawn_monster(Monster::Orc, 10, 11));
    state.objects.push(spawn_item(Item::Heal, 11, 10));
    state.objects.push(spawn_item(Item::Fireball, 10, 10));
    state.objects.push(spawn_item(Item::Confuse, 10, 10));
    assert_eq!(state.item_here(), Some(3));
    assert_eq!(state.handle_keys(key('g')), (PlayerAction::DidntTakeTurn, Request::Nothing));
    assert_eq!(state.inventory.len(), 1);
    assert_eq!(state.inventory[0].name, "scroll of fireball");
    assert_eq!(state.objects.len(), 4);
    state.handle_keys(key('g'));
    assert_eq!(state.inventory.len(), 2);
    assert_eq!(state.item_here(), None);
    assert_eq!(state.handle_keys(key('g')), (PlayerAction::DidntTakeTurn, Request::Nothing));
    assert_eq!(state.inventory.len(), 2);
    assert_eq!(state.messages.len(), 2);
}

#[test]
fn stairs_are_told_by_name_and_place() {
    let mut state = cave();
    assert!(!state.on_stairs());
    state.objects.push(Object::new(10, 11, '>', "stairs", white(), false));
    assert!(!state.on_stairs());
    state.objects.push(Object::new(10, 10, '>', "stair", white(), false));
    assert!(!state.on_stairs());
    state.objects.push(Object::new(10, 10, '>', "stairs", white(), false));
    assert!(state.on_stairs());
}

#[test]
fn descending_off_the_stairs_does_nothing() {
    let mut state = cave();
    assert_eq!(state.handle_keys(key('<')), (PlayerAction::DidntTakeTurn, Request::Nothing));
    assert_eq!(state.dungeon_level, 1);
    assert_eq!(state.messages.len(), 0);
}

#[test]
fn descending_on_the_stairs_leads_to_a_new_level() {
    let mut state = cave();
    state.objects[0].fighter.as_mut().unwrap().hp = 3;
    state.objects.push(spawn_monster(Monster::Orc, 20, 20));
    state.objects.push(Object::new(10, 10, '>', "stairs", white(), false));
    state.inventory.push(spawn_item(Item::Heal, 0, 0));
    assert_eq!(state.handle_keys(key('<')), (PlayerAction::DidntTakeTurn, Request::NewLevel));
    assert_eq!(state.dungeon_level, 2);
    assert_eq!(state.previous_player_pos, (10, 10));
    assert_eq!(state.objects[0].fighter.unwrap().hp, 18);
    assert_eq!(state.objects[0].name, "player");
    assert_eq!(state.objects[state.objects.len() - 1].name, "stairs");
    assert!(!state.map[state.objects[0].x as usize][state.objects[0].y as usize].blocked);
    assert!(state.map.iter().flatten().all(|tile| !tile.explored));
    assert_eq!(state.inventory.len(), 1);
    assert_eq!(
        texts(&state),
        vec![
            String::from("You take a moment to rest, and recover your strength."),
            String::from("After a rare moment of peace, you descend deeper into the heart of the dungeon..."),
        ]
    );
    assert_eq!(state.messages.color(0), violet());
    assert_eq!(state.messages.color(1), red());
    assert!(state.is_sound());
}

#[test]
fn rest_restores_half_of_the_greatest_hit_points() {
    let mut state = cave();
    state.objects[0].fighter = Some(Fighter {
        max_hp: 51,
        hp: 40,
        defense: 2,
        power: 5,
        xp: 9,
        on_death: DeathCallback::Player,
    });
    state.next_level();
    assert_eq!(state.objects[0].fighter.unwrap().hp, 51);
    assert_eq!(state.objects[0].fighter.unwrap().xp, 9);
    state.objects[0].fighter.as_mut().unwrap().hp = 1;
    state.next_level();
    assert_eq!(state.objects[0].fighter.unwrap().hp, 26);
    assert_eq!(state.dungeon_level, 3);
}

#[test]
fn game_keys_are_handled_before_those_of_the_player() {
    let mut state = cave();
    assert_eq!(state.play_key(arrow(KeyCode::Escape)), (PlayerAction::Exit, Request::Nothing));
    assert_eq!(
        state.play_key(Key { code: KeyCode::Enter, printable: '\r', left_alt: true }),
        (PlayerAction::DidntTakeTurn, Request::ToggleFullscreen)
    );
    assert_eq!(
        state.play_key(Key { code: KeyCode::Enter, printable: '\r', left_alt: false }),
        (PlayerAction::DidntTakeTurn, Request::Nothing)
    );
    assert_eq!(state.previous_player_pos, (10, 10));
    assert!(!state.disable_fov);
    assert_eq!(state.play_key(arrow(KeyCode::Number0)), (PlayerAction::DidntTakeTurn, Request::Nothing));
    assert!(state.disable_fov);
    state.play_key(arrow(KeyCode::Number0));
    assert!(!state.disable_fov);
    assert_eq!(state.play_key(arrow(KeyCode::Left)), (PlayerAction::TookTurn, Request::Nothing));
    assert_eq!(state.objects[0].pos(), (9, 10));
    // escape ends the game whatever the key prints
    assert_eq!(
        state.play_key(Key { code: KeyCode::Escape, printable: 'g', left_alt: false }),
        (PlayerAction::Exit, Request::Nothing)
    );
}

#[test]
fn monsters_act_after_a_turn_of_a_living_player() {
    let mut state = cave();
    assert!(state.monsters_act(PlayerAction::TookTurn));
    assert!(state.monsters_act(PlayerAction::Exit));
    assert!(!state.monsters_act(PlayerAction::DidntTakeTurn));
}

#[test]
fn letters_choose_menu_lines() {
    assert_eq!(menu_choice('a', 3), Some(0));
    assert_eq!(menu_choice('c', 3), Some(2));
    assert_eq!(menu_choice('d', 3), None);
    assert_eq!(menu_choice('B', 3), Some(1));
    assert_eq!(menu_choice('z', 26), Some(25));
    assert_eq!(menu_choice('Z', 26), Some(25));
    assert_eq!(menu_choice('a', 0), None);
    assert_eq!(menu_choice('1', 26), None);
    assert_eq!(menu_choice(' ', 26), None);
    assert_eq!(menu_choice('\u{e9}', 26), None);
    assert_eq!(menu_choice('`', 26), None);
    assert_eq!(menu_choice('{', 26), None);
}

#[test]
fn inventory_menu_lists_the_items() {
    let mut state = cave();
    assert_eq!(state.inventory_options(), vec![String::from("Inventory is empty.")]);
    assert_eq!(state.inventory_choice(Some(0)), None);
    assert_eq!(state.inventory_choice(None), None);
    state.inventory.push(spawn_item(Item::Heal, 0, 0));
    state.inventory.push(spawn_item(Item::Equipment, 0, 0));
    assert_eq!(state.inventory_options(), vec![String::from("healing potion"), String::from("sword")]);
    assert_eq!(state.inventory_choice(Some(1)), Some(1));
    assert_eq!(state.inventory_choice(None), None);
}

#[test]
fn character_box_shows_the_values() {
    let mut state = cave();
    state.objects[0].fighter.as_mut().unwrap().xp = 120;
    state.objects[0].level = 3;
    assert_eq!(
        state.character_info(),
        Some(String::from(
            "Character information\n\nLevel: 3\nExperience: 120\nExperience to level up: 650\n\nMaximum HP: 30\nAttack: 5\nDefense: 2"
        ))
    );
    state.objects[0].fighter = None;
    assert_eq!(state.character_info(), None);
}

#[test]
fn new_game_begins_on_the_first_level() {
    let state = GameState::new();
    assert!(state.is_sound());
    assert!(state.xp_fits());
    assert_eq!(state.dungeon_level, 1);
    assert!(state.inventory.is_empty());
    assert_eq!(state.camera_pos, (0, 0));
    assert_eq!(state.previous_player_pos, (-1, -1));
    assert!(!state.disable_fov);
    assert_eq!(state.mouse, Mouse { cx: 0, cy: 0, lbutton_pressed: false, rbutton_pressed: false });
    assert_eq!(state.messages.capacity(), 6);
    assert_eq!(
        texts(&state),
        vec![String::from("Welcome stranger! Prepare to perish in the Tombs of the Ancient Kings.")]
    );
    assert_eq!(state.messages.color(0), red());
    let player = &state.objects[0];
    assert_eq!((player.glyph, player.name.as_str(), player.color), ('@', "player", white()));
    assert!(player.alive && player.blocks);
    assert_eq!(player.level, 1);
    assert_eq!(
        player.fighter,
        Some(Fighter { max_hp: 30, hp: 30, defense: 2, power: 5, xp: 0, on_death: DeathCallback::Player })
    );
    assert!(!state.map[player.x as usize][player.y as usize].blocked);
    assert!(state.fov.iter().flatten().all(|seen| !seen));
    assert_eq!(state.objects[state.objects.len() - 1].name, "stairs");
}

#[test]
fn newest_lines_fill_the_panel_from_the_bottom() {
    // six rows; the lines take 1, 2, 3 and 1 rows, the oldest first
    assert_eq!(panel_rows(&vec![1, 2, 3, 1], 6), vec![(3, 5), (2, 2), (1, 0)]);
    assert_eq!(panel_rows(&vec![1, 1, 1], 6), vec![(2, 5), (1, 4), (0, 3)]);
    assert_eq!(panel_rows(&vec![1, 7, 1, 1], 6), vec![(3, 5), (2, 4)]);
    assert_eq!(panel_rows(&vec![1, 1, 7], 6), vec![]);
    assert_eq!(panel_rows(&vec![6], 6), vec![(0, 0)]);
    assert_eq!(panel_rows(&vec![], 6), vec![]);
    assert_eq!(panel_rows(&vec![0, 0], 0), vec![(1, 0), (0, 0)]);
    assert_eq!(panel_rows(&vec![1], -1), vec![]);
}

#[test]
fn sprites_are_placed_on_the_screen() {
    let mut state = cave();
    state.disable_fov = true;
    state.camera_pos = (5, 5);
    state.objects.push(spawn_item(Item::Heal, 6, 7));
    state.objects.push(spawn_monster(Monster::Orc, 4, 7));
    state.objects.push(spawn_item(Item::Confuse, 84, 47));
    state.objects.push(spawn_item(Item::Confuse, 85, 47));
    let sprites = state.sprites();
    let drawn: Vec<(i32, i32, char)> = sprites.iter().map(|sprite| (sprite.x, sprite.y, sprite.glyph)).collect();
    assert_eq!(drawn, vec![(1, 2, '!'), (79, 42, '#'), (5, 5, '@')]);
    assert_eq!(sprites[0].color, violet());
    assert_eq!(sprites[2].color, white());
}
